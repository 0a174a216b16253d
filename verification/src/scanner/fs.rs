//! Scanning by walking the file system: what one directory listing says, and
//! the graph that grows from the listings.

use super::aggregate::{
    aggregate_and_exclude, aggregated, is_closed, law_totals_add_up, sat_add, shown_subtotal,
    shown_totals,
};
use super::graph::{
    children_view, kids_of, nodes_view, DirectoryGraph, DirectoryNode, DirectoryNodeView,
    GraphDiagnostics, GraphView,
};
use super::order::is_tree;
use super::tree_model::{count32, low32};
use super::walk::{descends, reachable};
use crate::mft::FileRef;
use crate::models::{opt_view, strings_view, AccessState, CurrentPhase, ScanProgressEvent};
use crate::pathmap::PathMap;
use crate::paths::{drive_root, drive_root_path, join_path, joined, normalize, normalized};
use crate::refmap::RefMap;
use crate::sort::{precedes, sort_indices, sorts, ByText};
use crate::text::text_less;
use std::collections::VecDeque;
use vstd::prelude::*;
use vstd::string::*;
use vstd::utf8::encode_utf8;

verus! {

// ---------------------------------------------------------------------------
// Directory listings
// ---------------------------------------------------------------------------

/// One entry of a directory.
#[derive(Debug, Clone)]
pub struct FsEntry {
    pub name: String,
    pub is_dir: bool,
    /// Size of a file; 0 for a directory.
    pub file_size: u64,
    /// Tag of a reparse point.
    pub reparse_tag: Option<u32>,
}

/// Why a directory or an entry could not be read.
#[derive(Debug, Clone)]
pub enum FsEntryError {
    AccessDenied,
    Io { message: String },
}

/// An entry, or the name of one that could not be read and why.
pub type FsEntryResult = Result<FsEntry, (String, FsEntryError)>;

/// Access to directories.
pub trait FsReader {
    /// Lists a directory. The outer error concerns the directory as a whole,
    /// the inner ones single entries.
    fn read_dir(&self, path: &str) -> Result<Vec<FsEntryResult>, FsEntryError>;
}

/// Sorts an error of the operating system into the two kinds.
pub fn map_io_error(permission_denied: bool, raw: Option<i32>, message: &str) -> (r: FsEntryError)
    ensures
        match r {
            FsEntryError::AccessDenied => permission_denied || raw == Some(5i32),
            FsEntryError::Io { message: m } => !permission_denied && raw != Some(5i32) && m@
                == message@,
        },
{
    let code_denied: bool = match raw {
        Some(code) => code == 5,
        None => false,
    };
    if permission_denied || code_denied {
        FsEntryError::AccessDenied
    } else {
        FsEntryError::Io { message: String::from_str(message) }
    }
}

/// A directory that waits to be read.
#[derive(Debug, Clone)]
pub struct DirWorkItem {
    pub norm_path: String,
    pub display_path: String,
    pub parent_norm_path: Option<String>,
    pub display_name: String,
    pub depth: u32,
    pub reparse_tag: Option<u32>,
}

/// Model of a [`DirWorkItem`].
pub struct WorkItemView {
    pub norm_path: Seq<char>,
    pub display_path: Seq<char>,
    pub parent_norm_path: Option<Seq<char>>,
    pub display_name: Seq<char>,
    pub depth: u32,
    pub reparse_tag: Option<u32>,
}

impl View for DirWorkItem {
    type V = WorkItemView;

    open spec fn view(&self) -> WorkItemView {
        WorkItemView {
            norm_path: self.norm_path@,
            display_path: self.display_path@,
            parent_norm_path: opt_view(self.parent_norm_path),
            display_name: self.display_name@,
            depth: self.depth,
            reparse_tag: self.reparse_tag,
        }
    }
}

/// What was seen in one directory.
#[derive(Debug, Clone)]
pub struct DirectoryObservation {
    pub norm_path: String,
    pub display_path: String,
    pub parent_norm_path: Option<String>,
    pub display_name: String,
    pub depth: u32,
    /// Names and sizes of the files.
    pub direct_files: Vec<(String, u64)>,
    /// Names and reparse tags of the directories.
    pub direct_dirs: Vec<(String, Option<u32>)>,
    pub reparse_tag: Option<u32>,
    pub access_denied: bool,
    /// Names of the entries that could not be read, and why.
    pub entry_errors: Vec<(String, String)>,
}

/// Model of a [`DirectoryObservation`].
pub struct ObservationView {
    pub norm_path: Seq<char>,
    pub display_path: Seq<char>,
    pub parent_norm_path: Option<Seq<char>>,
    pub display_name: Seq<char>,
    pub depth: u32,
    pub direct_files: Seq<(Seq<char>, u64)>,
    pub direct_dirs: Seq<(Seq<char>, Option<u32>)>,
    pub reparse_tag: Option<u32>,
    pub access_denied: bool,
    pub entry_errors: Seq<(Seq<char>, Seq<char>)>,
}

/// The names and sizes in a list of files.
pub open spec fn files_view(s: Seq<(String, u64)>) -> Seq<(Seq<char>, u64)> {
    Seq::new(s.len(), |i: int| (s[i].0@, s[i].1))
}

/// The names and tags in a list of directories.
pub open spec fn dirs_view(s: Seq<(String, Option<u32>)>) -> Seq<(Seq<char>, Option<u32>)> {
    Seq::new(s.len(), |i: int| (s[i].0@, s[i].1))
}

/// The names and messages in a list of errors.
pub open spec fn errors_view(s: Seq<(String, String)>) -> Seq<(Seq<char>, Seq<char>)> {
    Seq::new(s.len(), |i: int| (s[i].0@, s[i].1@))
}

impl View for DirectoryObservation {
    type V = ObservationView;

    open spec fn view(&self) -> ObservationView {
        ObservationView {
            norm_path: self.norm_path@,
            display_path: self.display_path@,
            parent_norm_path: opt_view(self.parent_norm_path),
            display_name: self.display_name@,
            depth: self.depth,
            direct_files: files_view(self.direct_files@),
            direct_dirs: dirs_view(self.direct_dirs@),
            reparse_tag: self.reparse_tag,
            access_denied: self.access_denied,
            entry_errors: errors_view(self.entry_errors@),
        }
    }
}

/// The message of an error.
pub open spec fn error_text(e: FsEntryError) -> Seq<char> {
    match e {
        FsEntryError::AccessDenied => "AccessDenied"@,
        FsEntryError::Io { message } => message@,
    }
}

/// The files among the first `n` entries.
pub open spec fn listed_files(entries: Seq<FsEntryResult>, n: nat) -> Seq<(Seq<char>, u64)>
    decreases n,
{
    if n == 0 {
        Seq::empty()
    } else {
        let before = listed_files(entries, (n - 1) as nat);
        match entries[n - 1] {
            Ok(e) => if e.is_dir {
                before
            } else {
                before.push((e.name@, e.file_size))
            },
            Err(_) => before,
        }
    }
}

/// The directories among the first `n` entries.
pub open spec fn listed_dirs(entries: Seq<FsEntryResult>, n: nat) -> Seq<(Seq<char>, Option<u32>)>
    decreases n,
{
    if n == 0 {
        Seq::empty()
    } else {
        let before = listed_dirs(entries, (n - 1) as nat);
        match entries[n - 1] {
            Ok(e) => if e.is_dir {
                before.push((e.name@, e.reparse_tag))
            } else {
                before
            },
            Err(_) => before,
        }
    }
}

/// The errors among the first `n` entries.
pub open spec fn listed_errors(entries: Seq<FsEntryResult>, n: nat) -> Seq<(Seq<char>, Seq<char>)>
    decreases n,
{
    if n == 0 {
        Seq::empty()
    } else {
        let before = listed_errors(entries, (n - 1) as nat);
        match entries[n - 1] {
            Ok(_) => before,
            Err(e) => before.push((e.0@, error_text(e.1))),
        }
    }
}

/// An observation of the directory in which nothing was seen.
pub open spec fn blank_observation(
    item: WorkItemView,
    reparse_tag: Option<u32>,
    access_denied: bool,
) -> ObservationView {
    ObservationView {
        norm_path: item.norm_path,
        display_path: item.display_path,
        parent_norm_path: item.parent_norm_path,
        display_name: item.display_name,
        depth: item.depth,
        direct_files: Seq::empty(),
        direct_dirs: Seq::empty(),
        reparse_tag,
        access_denied,
        entry_errors: Seq::empty(),
    }
}

/// What a listing says about the directory.
pub open spec fn observed(
    item: WorkItemView,
    listing: Result<Vec<FsEntryResult>, FsEntryError>,
) -> ObservationView {
    match listing {
        Err(FsEntryError::AccessDenied) => blank_observation(item, None, true),
        Err(FsEntryError::Io { message }) => ObservationView {
            entry_errors: seq![(Seq::empty(), message@)],
            ..blank_observation(item, None, false)
        },
        Ok(entries) => ObservationView {
            direct_files: listed_files(entries@, entries@.len()),
            direct_dirs: listed_dirs(entries@, entries@.len()),
            entry_errors: listed_errors(entries@, entries@.len()),
            ..blank_observation(item, None, false)
        },
    }
}

/// An observation in which nothing was seen.
fn blank(item: DirWorkItem, reparse_tag: Option<u32>, access_denied: bool) -> (r:
    DirectoryObservation)
    ensures
        r@ == blank_observation(item@, reparse_tag, access_denied),
        r.direct_files@.len() == 0,
        r.direct_dirs@.len() == 0,
        r.entry_errors@.len() == 0,
{
    let r = DirectoryObservation {
        norm_path: item.norm_path,
        display_path: item.display_path,
        parent_norm_path: item.parent_norm_path,
        display_name: item.display_name,
        depth: item.depth,
        direct_files: Vec::new(),
        direct_dirs: Vec::new(),
        reparse_tag,
        access_denied,
        entry_errors: Vec::new(),
    };
    proof {
        assert(r@.direct_files =~= Seq::<(Seq<char>, u64)>::empty());
        assert(r@.direct_dirs =~= Seq::<(Seq<char>, Option<u32>)>::empty());
        assert(r@.entry_errors =~= Seq::<(Seq<char>, Seq<char>)>::empty());
    }
    r
}

/// Reads a listing.
pub fn observe_listing(item: DirWorkItem, listing: Result<Vec<FsEntryResult>, FsEntryError>) -> (r:
    DirectoryObservation)
    ensures
        r@ == observed(item@, listing),
{
    let entries: Vec<FsEntryResult> = match listing {
        Err(FsEntryError::AccessDenied) => {
            return blank(item, None, true);
        },
        Err(FsEntryError::Io { message }) => {
            let mut r = blank(item, None, false);
            r.entry_errors.push((String::new(), message));
            proof {
                assert(r@.entry_errors =~= seq![(Seq::<char>::empty(), message@)]);
                assert(r@.direct_files =~= Seq::<(Seq<char>, u64)>::empty());
                assert(r@.direct_dirs =~= Seq::<(Seq<char>, Option<u32>)>::empty());
            }
            return r;
        },
        Ok(entries) => entries,
    };
    let mut files: Vec<(String, u64)> = Vec::new();
    let mut dirs: Vec<(String, Option<u32>)> = Vec::new();
    let mut errors: Vec<(String, String)> = Vec::new();
    let mut i: usize = 0;
    proof {
        assert(files_view(files@) =~= Seq::<(Seq<char>, u64)>::empty());
        assert(dirs_view(dirs@) =~= Seq::<(Seq<char>, Option<u32>)>::empty());
        assert(errors_view(errors@) =~= Seq::<(Seq<char>, Seq<char>)>::empty());
    }
    while i < entries.len()
        invariant
            i <= entries@.len(),
            files_view(files@) == listed_files(entries@, i as nat),
            dirs_view(dirs@) == listed_dirs(entries@, i as nat),
            errors_view(errors@) == listed_errors(entries@, i as nat),
        decreases entries@.len() - i,
    {
        let ghost f0 = files_view(files@);
        let ghost d0 = dirs_view(dirs@);
        let ghost e0 = errors_view(errors@);
        match &entries[i] {
            Ok(entry) => {
                if entry.is_dir {
                    dirs.push((entry.name.clone(), entry.reparse_tag));
                    assert(dirs_view(dirs@) =~= d0.push((entry.name@, entry.reparse_tag)));
                } else {
                    files.push((entry.name.clone(), entry.file_size));
                    assert(files_view(files@) =~= f0.push((entry.name@, entry.file_size)));
                }
            },
            Err((name, e)) => {
                let message: String = match e {
                    FsEntryError::AccessDenied => String::from_str("AccessDenied"),
                    FsEntryError::Io { message } => message.clone(),
                };
                errors.push((name.clone(), message));
                assert(errors_view(errors@) =~= e0.push((name@, error_text(*e))));
            },
        }
        i += 1;
    }
    let mut r = blank(item, None, false);
    r.direct_files = files;
    r.direct_dirs = dirs;
    r.entry_errors = errors;
    r
}

/// Looks into one directory. A reparse point is not entered, and after a
/// cancellation nothing is.
pub fn process_fs_item<R: FsReader + ?Sized>(reader: &R, item: DirWorkItem, cancelled: bool) -> (r:
    DirectoryObservation)
    ensures
        cancelled || item.reparse_tag is Some ==> r@ == blank_observation(
            item@,
            item.reparse_tag,
            false,
        ),
        !cancelled && item.reparse_tag is None ==> exists|
            path: &str,
            listing: Result<Vec<FsEntryResult>, FsEntryError>,
        |
            path@ == item.norm_path@ && #[trigger] call_ensures(
                R::read_dir,
                (reader, path),
                listing,
            ) && r@ == observed(item@, listing),
{
    if cancelled || item.reparse_tag.is_some() {
        let tag: Option<u32> = item.reparse_tag;
        return blank(item, tag, false);
    }
    let listing = reader.read_dir(item.norm_path.as_str());
    observe_listing(item, listing)
}

// ---------------------------------------------------------------------------
// Concurrency
// ---------------------------------------------------------------------------

/// The kind of a drive.
#[derive(Debug, Clone, Copy, PartialEq, Eq, Structural)]
pub enum DriveKind {
    Fixed,
    Removable,
    Network,
    Other,
}

/// The kind that a drive type of the operating system stands for.
pub fn win32_drive_kind(drive_type: u32) -> (r: DriveKind)
    ensures
        r == if drive_type == 2 {
            DriveKind::Removable
        } else if drive_type == 3 {
            DriveKind::Fixed
        } else if drive_type == 4 {
            DriveKind::Network
        } else {
            DriveKind::Other
        },
{
    if drive_type == 2 {
        DriveKind::Removable
    } else if drive_type == 4 {
        DriveKind::Network
    } else if drive_type == 3 {
        DriveKind::Fixed
    } else {
        DriveKind::Other
    }
}

/// The number of workers for a drive, on a machine that can run `available`
/// threads at once: one for slow media, else at most four.
pub open spec fn workers_for(kind: DriveKind, available: usize) -> int {
    if kind == DriveKind::Removable || kind == DriveKind::Network {
        1
    } else if available < 1 {
        1
    } else if available > 4 {
        4
    } else {
        available as int
    }
}

/// The number of workers for a drive.
pub fn concurrency_for<F: Fn(char) -> DriveKind>(
    drive_type_fn: &F,
    root_drive: char,
    available: usize,
) -> (r: usize)
    requires
        call_requires(*drive_type_fn, (root_drive,)),
    ensures
        exists|kind: DriveKind| #[trigger]
            call_ensures(*drive_type_fn, (root_drive,), kind) && r == workers_for(kind, available),
{
    match drive_type_fn(root_drive) {
        DriveKind::Removable | DriveKind::Network => 1,
        _ => if available < 1 {
            1
        } else if available > 4 {
            4
        } else {
            available
        },
    }
}

// ---------------------------------------------------------------------------
// Stable references
// ---------------------------------------------------------------------------

/// The hash of the first `n` bytes.
pub open spec fn fnv(bytes: Seq<u8>, n: nat) -> u64
    decreases n,
{
    if n == 0 {
        0xcbf29ce484222325
    } else {
        (((fnv(bytes, (n - 1) as nat) ^ (bytes[n - 1] as u64)) as nat * 0x100000001b3)
            % 0x1_0000_0000_0000_0000) as u64
    }
}

/// The hash of a path.
pub open spec fn path_hash(path: Seq<char>) -> u64 {
    fnv(encode_utf8(path), encode_utf8(path).len())
}

/// A hash of a path that is the same in every process: FNV-1a over its bytes.
pub fn stable_hash_path(path: &str) -> (r: u64)
    ensures
        r == path_hash(path@),
{
    let bytes: &[u8] = path.as_bytes();
    let mut hash: u64 = 0xcbf29ce484222325;
    let mut i: usize = 0;
    while i < bytes.len()
        invariant
            i <= bytes@.len(),
            hash == fnv(bytes@, i as nat),
        decreases bytes@.len() - i,
    {
        let mixed: u64 = hash ^ (bytes[i] as u64);
        hash = ((mixed as u128 * 0x100000001b3) % 0x1_0000_0000_0000_0000) as u64;
        i += 1;
    }
    hash
}

/// The reference of the directory with the normal form `path`.
pub open spec fn path_ref(path: Seq<char>) -> FileRef {
    FileRef { record_no: path_hash(path), sequence: 1 }
}

// ---------------------------------------------------------------------------
// The growing graph
// ---------------------------------------------------------------------------

/// Model of a [`FsScan`].
pub struct FsScanView {
    pub graph: GraphView,
    /// References of the directories seen so far, by their normal form.
    pub known: Map<Seq<char>, FileRef>,
    /// Directories that are still to be handed out.
    pub pending: Seq<WorkItemView>,
    /// Directories that were found but not observed yet.
    pub outstanding: usize,
    pub scanned_files: u64,
    pub entry_errors: u64,
    /// Observations so far.
    pub completed: u64,
}

/// Sum of the sizes of the first `n` files.
pub open spec fn file_sizes(files: Seq<(Seq<char>, u64)>, n: nat) -> u64
    decreases n,
{
    if n == 0 {
        0
    } else {
        sat_add(file_sizes(files, (n - 1) as nat), files[n - 1].1)
    }
}

/// The node of an observed directory.
pub open spec fn observed_node(obs: ObservationView) -> DirectoryNodeView {
    DirectoryNodeView {
        file_ref: path_ref(obs.norm_path),
        path: obs.display_path,
        display_name: obs.display_name,
        depth: obs.depth,
        reparse_tag: obs.reparse_tag,
        is_junction: false,
        matched_preset: None,
        category: None,
        auto_migrate: false,
        access_state: if obs.access_denied {
            AccessState::Inaccessible
        } else {
            AccessState::Unknown
        },
        scan_status: None,
        migration_id: None,
        linked_target_size_bytes: None,
        visible: false,
        direct_file_size_bytes: file_sizes(obs.direct_files, obs.direct_files.len()),
        direct_file_count: obs.direct_files.len() as u64,
        direct_dir_count: low32(obs.direct_dirs.len()),
        subtree_size_bytes: 0,
        subtree_file_count: 0,
        subtree_dir_count: 0,
        excluded: false,
        reachable_from_root: true,
    }
}

/// The depth below `depth`.
pub open spec fn next_depth(depth: u32) -> u32 {
    if depth == u32::MAX {
        depth
    } else {
        (depth + 1) as u32
    }
}

/// The work item for a directory seen in an observation.
pub open spec fn kid_item(obs: ObservationView, dir: (Seq<char>, Option<u32>)) -> WorkItemView {
    let display = joined(obs.display_path, dir.0);
    WorkItemView {
        norm_path: normalized(display),
        display_path: display,
        parent_norm_path: Some(obs.norm_path),
        display_name: dir.0,
        depth: next_depth(obs.depth),
        reparse_tag: dir.1,
    }
}

/// The work items for the directories seen in an observation: none below a
/// reparse point or a directory that could not be read.
pub open spec fn kid_items(obs: ObservationView) -> Seq<WorkItemView> {
    if obs.reparse_tag is Some || obs.access_denied {
        Seq::empty()
    } else {
        Seq::new(obs.direct_dirs.len(), |i: int| kid_item(obs, obs.direct_dirs[i]))
    }
}

/// The sum, or the largest value where the sum exceeds it.
pub open spec fn sat_add_size(a: usize, b: nat) -> usize {
    if a + b > usize::MAX {
        usize::MAX
    } else {
        (a + b) as usize
    }
}

/// The edges after the directory `r` was observed: its parent, if it is known,
/// has one more child.
pub open spec fn with_child(
    children: Map<FileRef, Seq<FileRef>>,
    known: Map<Seq<char>, FileRef>,
    parent: Option<Seq<char>>,
    r: FileRef,
) -> Map<FileRef, Seq<FileRef>> {
    match parent {
        Some(p) => if known.contains_key(p) {
            children.insert(known[p], kids_of(children, known[p]).push(r))
        } else {
            children
        },
        None => children,
    }
}

/// The scan after an observation.
pub open spec fn after_observation(s: FsScanView, obs: ObservationView) -> FsScanView {
    let r = path_ref(obs.norm_path);
    let known = s.known.insert(obs.norm_path, r);
    let kids = kid_items(obs);
    FsScanView {
        graph: GraphView {
            nodes: s.graph.nodes.insert(r, observed_node(obs)),
            root: if obs.parent_norm_path is None {
                r
            } else {
                s.graph.root
            },
            children: with_child(s.graph.children, known, obs.parent_norm_path, r),
            ..s.graph
        },
        known,
        pending: s.pending + kids,
        outstanding: sat_add_size(
            if s.outstanding == 0 {
                0
            } else {
                (s.outstanding - 1) as usize
            },
            kids.len(),
        ),
        scanned_files: sat_add(s.scanned_files, obs.direct_files.len() as u64),
        entry_errors: sat_add(s.entry_errors, obs.entry_errors.len() as u64),
        completed: sat_add(s.completed, 1),
    }
}

/// The scan after the next directory was handed out.
pub open spec fn handed_out(s: FsScanView) -> FsScanView {
    FsScanView { pending: s.pending.drop_first(), ..s }
}

/// Nothing is left to hand out or to wait for.
pub open spec fn is_over(s: FsScanView) -> bool {
    s.outstanding == 0 && s.pending.len() == 0
}

/// The scan before any observation: the root directory waits.
pub open spec fn scan_start(drive: char) -> FsScanView {
    let root = normalized(drive_root(drive));
    FsScanView {
        graph: GraphView {
            nodes: Map::empty(),
            root: path_ref(root),
            children: Map::empty(),
            system_metadata_size_bytes: 0,
            diagnostics: GraphDiagnostics::spec_none(),
            excluded_subtree_size_bytes: 0,
        },
        known: Map::empty(),
        pending: seq![
            WorkItemView {
                norm_path: root,
                display_path: drive_root(drive),
                parent_norm_path: None,
                display_name: seq![drive],
                depth: 0,
                reparse_tag: None,
            },
        ],
        outstanding: 1,
        scanned_files: 0,
        entry_errors: 0,
        completed: 0,
    }
}

/// `out` holds `kids` by their display names; kids with the same name keep
/// their order.
pub open spec fn by_name(
    nodes: Map<FileRef, DirectoryNodeView>,
    kids: Seq<FileRef>,
    out: Seq<FileRef>,
) -> bool {
    exists|p: Seq<usize>| #[trigger] named_by(nodes, kids, out, p)
}

/// The display name of a directory; empty where it has no node.
pub open spec fn name_of(nodes: Map<FileRef, DirectoryNodeView>, r: FileRef) -> Seq<char> {
    if nodes.contains_key(r) {
        nodes[r].display_name
    } else {
        Seq::empty()
    }
}

/// `out` holds `kids` in the order `p`, which is by name and then by place.
pub open spec fn named_by(
    nodes: Map<FileRef, DirectoryNodeView>,
    kids: Seq<FileRef>,
    out: Seq<FileRef>,
    p: Seq<usize>,
) -> bool {
    &&& p.len() == kids.len()
    &&& out.len() == kids.len()
    &&& p.no_duplicates()
    &&& forall|a: int| 0 <= a < p.len() ==> (#[trigger] p[a]) < kids.len()
    &&& forall|a: int| 0 <= a < p.len() ==> #[trigger] out[a] == kids[p[a] as int]
    &&& forall|a: int, b: int|
        0 <= a < b < p.len() ==> {
            let x = name_of(nodes, kids[#[trigger] p[a] as int]);
            let y = name_of(nodes, kids[#[trigger] p[b] as int]);
            text_less(x, y) || (!text_less(y, x) && p[a] < p[b])
        }
}

/// The edges with every list of children in the order of the names.
pub open spec fn names_sorted(
    g: GraphView,
    children: Map<FileRef, Seq<FileRef>>,
) -> bool {
    &&& forall|p: FileRef| #[trigger] children.contains_key(p) <==> g.children.contains_key(p)
    &&& forall|p: FileRef| #[trigger]
        children.contains_key(p) ==> by_name(g.nodes, g.children[p], children[p])
}

/// The models of the items in a queue.
pub open spec fn items_view(s: Seq<DirWorkItem>) -> Seq<WorkItemView> {
    Seq::new(s.len(), |i: int| s[i]@)
}

/// A scan that grows from observations. The caller reads the directories that
/// [`FsScan::next_item`] hands out, in any order and at the same time if it
/// likes, and reports them to [`FsScan::observe`].
pub struct FsScan {
    graph: DirectoryGraph,
    path_to_ref: PathMap<FileRef>,
    pending: VecDeque<DirWorkItem>,
    outstanding: usize,
    scanned_files: u64,
    entry_errors: u64,
    completed: u64,
}

impl View for FsScan {
    type V = FsScanView;

    closed spec fn view(&self) -> FsScanView {
        FsScanView {
            graph: self.graph@,
            known: self.path_to_ref@,
            pending: items_view(self.pending@),
            outstanding: self.outstanding,
            scanned_files: self.scanned_files,
            entry_errors: self.entry_errors,
            completed: self.completed,
        }
    }
}

/// Every child has a node, and everything known has one.
pub open spec fn scan_closed(s: FsScanView) -> bool {
    &&& forall|p: FileRef, i: int|
        #![trigger s.graph.children[p][i]]
        s.graph.children.contains_key(p) && 0 <= i < s.graph.children[p].len()
            ==> s.graph.nodes.contains_key(s.graph.children[p][i])
    &&& forall|k: Seq<char>| #[trigger]
        s.known.contains_key(k) ==> s.graph.nodes.contains_key(s.known[k])
}

impl FsScan {
    /// The scan is consistent.
    pub closed spec fn wf(&self) -> bool {
        &&& self.graph.wf()
        &&& self.path_to_ref.wf()
        &&& scan_closed(self@)
    }

    /// Starts the scan of a drive.
    pub fn start(root_drive: char) -> (r: Self)
        ensures
            r.wf(),
            r@ == scan_start(root_drive),
    {
        let display: String = drive_root_path(root_drive);
        let norm: String = normalize(display.as_str());
        let root = FileRef { record_no: stable_hash_path(norm.as_str()), sequence: 1 };
        let mut name = String::new();
        name.push(root_drive);
        let item = DirWorkItem {
            norm_path: norm,
            display_path: display,
            parent_norm_path: None,
            display_name: name,
            depth: 0,
            reparse_tag: None,
        };
        let mut pending: VecDeque<DirWorkItem> = VecDeque::new();
        pending.push_back(item);
        let r = FsScan {
            graph: DirectoryGraph::empty(root),
            path_to_ref: PathMap::new(),
            pending,
            outstanding: 1,
            scanned_files: 0,
            entry_errors: 0,
            completed: 0,
        };
        proof {
            let m = scan_start(root_drive);
            assert(name@ =~= seq![root_drive]);
            assert(r@.graph.nodes =~= m.graph.nodes);
            assert(r@.graph.children =~= m.graph.children);
            assert(r@.known =~= m.known);
            assert(r@.pending =~= m.pending);
        }
        r
    }

    /// Hands out the next directory to read.
    pub fn next_item(&mut self) -> (r: Option<DirWorkItem>)
        requires
            old(self).wf(),
        ensures
            final(self).wf(),
            match r {
                Some(item) => old(self)@.pending.len() > 0 && item@ == old(self)@.pending[0]
                    && final(self)@ == handed_out(old(self)@),
                None => old(self)@.pending.len() == 0 && final(self)@ == old(self)@,
            },
    {
        let item = self.pending.pop_front();
        proof {
            if old(self).pending@.len() > 0 {
                assert(items_view(self.pending@) =~= items_view(old(self).pending@).drop_first());
            } else {
                assert(items_view(self.pending@) =~= items_view(old(self).pending@));
            }
            assert(self@.graph == old(self)@.graph);
            assert(self@.known == old(self)@.known);
            assert(scan_closed(old(self)@));
        }
        item
    }

    /// Whether nothing is left to hand out or to wait for.
    pub fn is_done(&self) -> (r: bool)
        ensures
            r == is_over(self@),
    {
        self.outstanding == 0 && self.pending.len() == 0
    }

    /// Takes in what was seen in a directory. Every 4096th observation brings a
    /// report.
    pub fn observe(&mut self, obs: DirectoryObservation) -> (r: Option<ScanProgressEvent>)
        requires
            old(self).wf(),
        ensures
            final(self).wf(),
            final(self)@ == after_observation(old(self)@, obs@),
            r == if final(self)@.completed % 4096 == 0 {
                Some(
                    ScanProgressEvent {
                        scanned_records: 0,
                        scanned_dirs: final(self)@.completed,
                        scanned_files: final(self)@.scanned_files,
                        estimated_record_slots: 0,
                        current_phase: CurrentPhase::WalkingFs,
                    },
                )
            } else {
                None
            },
    {
        let ghost s0 = self@;
        let ghost view = obs@;
        let r = FileRef { record_no: stable_hash_path(obs.norm_path.as_str()), sequence: 1 };
        self.outstanding = if self.outstanding == 0 {
            0
        } else {
            self.outstanding - 1
        };
        self.path_to_ref.insert(obs.norm_path.clone(), r);
        let file_count: u64 = obs.direct_files.len() as u64;
        self.scanned_files = self.scanned_files.saturating_add(file_count);
        self.entry_errors = self.entry_errors.saturating_add(obs.entry_errors.len() as u64);
        let node = make_observed_node(&obs, r);
        let ghost nodes0 = nodes_view(self.graph.nodes@);
        let ghost children0 = children_view(self.graph.children@);
        self.graph.nodes.insert(r, node);
        assert(nodes_view(self.graph.nodes@) =~= nodes0.insert(r, node@));
        match &obs.parent_norm_path {
            Some(parent) => {
                match self.path_to_ref.get(parent.as_str()) {
                    Some(p) => {
                        let p: FileRef = *p;
                        add_child(&mut self.graph.children, p, r);
                    },
                    None => {},
                }
            },
            None => {
                self.graph.root = r;
            },
        }
        assert(self.graph@.children == with_child(
            s0.graph.children,
            s0.known.insert(view.norm_path, r),
            view.parent_norm_path,
            r,
        ));
        let ghost waiting = items_view(self.pending@);
        if obs.reparse_tag.is_none() && !obs.access_denied {
            let mut i: usize = 0;
            while i < obs.direct_dirs.len()
                invariant
                    i <= obs.direct_dirs@.len(),
                    view == obs@,
                    waiting == s0.pending,
                    kid_items(view).len() == obs.direct_dirs@.len(),
                    kid_items(view) == Seq::new(
                        view.direct_dirs.len(),
                        |i: int| kid_item(view, view.direct_dirs[i]),
                    ),
                    items_view(self.pending@) =~= waiting + kid_items(view).take(i as int),
                    self.outstanding == sat_add_size(
                        if s0.outstanding == 0 {
                            0
                        } else {
                            (s0.outstanding - 1) as usize
                        },
                        i as nat,
                    ),
                    self.graph.wf(),
                    self.path_to_ref.wf(),
                    self.graph@.nodes == s0.graph.nodes.insert(r, observed_node(view)),
                    self.graph@.root == if view.parent_norm_path is None {
                        r
                    } else {
                        s0.graph.root
                    },
                    self.graph@.children == with_child(
                        s0.graph.children,
                        s0.known.insert(view.norm_path, r),
                        view.parent_norm_path,
                        r,
                    ),
                    self.graph@.system_metadata_size_bytes == s0.graph.system_metadata_size_bytes,
                    self.graph@.diagnostics == s0.graph.diagnostics,
                    self.graph@.excluded_subtree_size_bytes
                        == s0.graph.excluded_subtree_size_bytes,
                    self.path_to_ref@ == s0.known.insert(view.norm_path, r),
                    self.scanned_files == sat_add(
                        s0.scanned_files,
                        view.direct_files.len() as u64,
                    ),
                    self.entry_errors == sat_add(s0.entry_errors, view.entry_errors.len() as u64),
                    self.completed == s0.completed,
                decreases obs.direct_dirs@.len() - i,
            {
                let name: &str = obs.direct_dirs[i].0.as_str();
                let display: String = join_path(obs.display_path.as_str(), name);
                let item = DirWorkItem {
                    norm_path: normalize(display.as_str()),
                    display_path: display,
                    parent_norm_path: Some(obs.norm_path.clone()),
                    display_name: obs.direct_dirs[i].0.clone(),
                    depth: obs.depth.saturating_add(1),
                    reparse_tag: obs.direct_dirs[i].1,
                };
                let ghost before = items_view(self.pending@);
                assert(item@ == kid_items(view)[i as int]);
                self.pending.push_back(item);
                self.outstanding = self.outstanding.saturating_add(1);
                assert(items_view(self.pending@) =~= before.push(item@));
                i += 1;
            }
            assert(kid_items(view).take(kid_items(view).len() as int) =~= kid_items(view));
        } else {
            assert(waiting + kid_items(view) =~= waiting);
        }
        self.completed = self.completed.saturating_add(1);
        proof {
            assert(self@ == after_observation(s0, view));
            lemma_scan_closed(s0, view);
        }
        if self.completed % 4096 == 0 {
            Some(
                ScanProgressEvent {
                    scanned_records: 0,
                    scanned_dirs: self.completed,
                    scanned_files: self.scanned_files,
                    estimated_record_slots: 0,
                    current_phase: CurrentPhase::WalkingFs,
                },
            )
        } else {
            None
        }
    }

    /// The finished graph, with the children in the order of their names, the
    /// number of files, and the number of entries that could not be read.
    pub fn finish(self, normalized_excluded: &[String]) -> (r: (DirectoryGraph, u64, u64))
        requires
            self.wf(),
        ensures
            r.0.wf(),
            exists|children: Map<FileRef, Seq<FileRef>>|
                #[trigger] names_sorted(self@.graph, children) && r.0@ == aggregated(
                    GraphView { children, ..self@.graph },
                    strings_view(normalized_excluded@),
                ),
            r.1 == self@.scanned_files,
            r.2 == self@.entry_errors,
    {
        let ghost s = self@;
        let mut graph: DirectoryGraph = self.graph;
        let sorted = sort_children(&graph);
        let ghost children = children_view(sorted@);
        graph.children = sorted;
        proof {
            assert(graph@ == (GraphView { children, ..s.graph }));
            lemma_sorted_closed(s, children);
        }
        aggregate_and_exclude(&mut graph, normalized_excluded);
        (graph, self.scanned_files, self.entry_errors)
    }
}

/// The node of an observed directory.
fn make_observed_node(obs: &DirectoryObservation, r: FileRef) -> (node: DirectoryNode)
    requires
        r == path_ref(obs.norm_path@),
    ensures
        node@ == observed_node(obs@),
{
    let ghost view = obs@;
    let mut sum: u64 = 0;
    let mut i: usize = 0;
    while i < obs.direct_files.len()
        invariant
            i <= obs.direct_files@.len(),
            view == obs@,
            sum == file_sizes(view.direct_files, i as nat),
        decreases obs.direct_files@.len() - i,
    {
        assert(view.direct_files[i as int].1 == obs.direct_files@[i as int].1);
        sum = sum.saturating_add(obs.direct_files[i].1);
        i += 1;
    }
    DirectoryNode {
        file_ref: r,
        path: obs.display_path.clone(),
        display_name: obs.display_name.clone(),
        depth: obs.depth,
        reparse_tag: obs.reparse_tag,
        is_junction: false,
        matched_preset: None,
        category: None,
        auto_migrate: false,
        access_state: if obs.access_denied {
            AccessState::Inaccessible
        } else {
            AccessState::Unknown
        },
        scan_status: None,
        migration_id: None,
        linked_target_size_bytes: None,
        visible: false,
        direct_file_size_bytes: sum,
        direct_file_count: obs.direct_files.len() as u64,
        direct_dir_count: count32(obs.direct_dirs.len()),
        subtree_size_bytes: 0,
        subtree_file_count: 0,
        subtree_dir_count: 0,
        excluded: false,
        reachable_from_root: true,
    }
}

/// Adds a child to the list of its parent.
fn add_child(children: &mut RefMap<Vec<FileRef>>, p: FileRef, r: FileRef)
    requires
        old(children).wf(),
    ensures
        final(children).wf(),
        children_view(final(children)@) == children_view(old(children)@).insert(
            p,
            kids_of(children_view(old(children)@), p).push(r),
        ),
{
    let ghost before = children_view(children@);
    match children.position(p) {
        Some(at) => {
            let slot = children.value_mut(at);
            slot.push(r);
        },
        None => {
            let mut list: Vec<FileRef> = Vec::new();
            list.push(r);
            assert(list@ =~= Seq::<FileRef>::empty().push(r));
            children.insert(p, list);
        },
    }
    assert(children_view(children@) =~= before.insert(p, kids_of(before, p).push(r)));
}

/// The lists of children in the order of their names.
fn sort_children(graph: &DirectoryGraph) -> (r: RefMap<Vec<FileRef>>)
    requires
        graph.wf(),
    ensures
        r.wf(),
        names_sorted(graph@, children_view(r@)),
{
    let ghost g = graph@;
    let mut out: RefMap<Vec<FileRef>> = RefMap::new();
    let total: usize = graph.children.len();
    let ghost order = graph.children.order();
    let mut i: usize = 0;
    while i < total
        invariant
            graph.wf(),
            g == graph@,
            order == graph.children.order(),
            total == order.len(),
            i <= total,
            out.wf(),
            forall|p: FileRef| #[trigger]
                out@.contains_key(p) <==> exists|j: int| 0 <= j < i && #[trigger] order[j] == p,
            forall|p: FileRef| #[trigger]
                out@.contains_key(p) ==> g.children.contains_key(p) && by_name(
                    g.nodes,
                    g.children[p],
                    out@[p]@,
                ),
        decreases total - i,
    {
        proof {
            graph.children.lemma_order();
            assert(graph.children@.contains_key(order[i as int]));
        }
        let p: FileRef = graph.children.key_at(i);
        let kids: &Vec<FileRef> = graph.children.value_at(i);
        let ghost before = out@;
        assert(g.children[p] == kids@);
        let sorted = sort_by_name(&graph.nodes, kids);
        out.insert(p, sorted);
        proof {
            assert forall|q: FileRef| #[trigger] out@.contains_key(q) <==> exists|j: int|
                0 <= j < i + 1 && #[trigger] order[j] == q by {
                if before.contains_key(q) {
                    let j = choose|j: int| 0 <= j < i && #[trigger] order[j] == q;
                    assert(0 <= j < i + 1 && order[j] == q);
                }
                if q == p {
                    assert(order[i as int] == q);
                }
            }
        }
        i += 1;
    }
    proof {
        graph.children.lemma_order();
        assert forall|p: FileRef| #[trigger] children_view(out@).contains_key(p)
            <==> g.children.contains_key(p) by {
            if g.children.contains_key(p) {
                assert(graph.children@.contains_key(p));
                let j = choose|j: int| 0 <= j < order.len() && #[trigger] order[j] == p;
                assert(out@.contains_key(p));
            }
        }
        assert forall|p: FileRef| #[trigger] children_view(out@).contains_key(p) implies by_name(
            g.nodes,
            g.children[p],
            children_view(out@)[p],
        ) by {
            assert(out@.contains_key(p));
        }
    }
    out
}

/// The kids in the order of their names.
fn sort_by_name(nodes: &RefMap<DirectoryNode>, kids: &Vec<FileRef>) -> (r: Vec<FileRef>)
    requires
        nodes.wf(),
    ensures
        by_name(nodes_view(nodes@), kids@, r@),
{
    let ghost views = nodes_view(nodes@);
    let mut keys: Vec<ByText> = Vec::new();
    let mut i: usize = 0;
    while i < kids.len()
        invariant
            nodes.wf(),
            views == nodes_view(nodes@),
            i <= kids@.len(),
            keys@.len() == i,
            forall|j: int|
                0 <= j < i ==> (#[trigger] keys@[j]).text@ == name_of(views, kids@[j]),
        decreases kids@.len() - i,
    {
        let text: String = match nodes.get(&kids[i]) {
            Some(node) => node.display_name.clone(),
            None => String::new(),
        };
        assert(text@ =~= name_of(views, kids@[i as int]));
        keys.push(ByText { text });
        i += 1;
    }
    let p: Vec<usize> = sort_indices(&keys);
    let mut out: Vec<FileRef> = Vec::new();
    let mut k: usize = 0;
    while k < p.len()
        invariant
            k <= p@.len(),
            sorts(keys@, p@),
            keys@.len() == kids@.len(),
            out@.len() == k,
            forall|j: int| 0 <= j < k ==> #[trigger] out@[j] == kids@[p@[j] as int],
        decreases p@.len() - k,
    {
        out.push(kids[p[k]]);
        k += 1;
    }
    proof {
        assert forall|a: int, b: int| 0 <= a < b < p@.len() implies {
            let x = name_of(views, kids@[#[trigger] p@[a] as int]);
            let y = name_of(views, kids@[#[trigger] p@[b] as int]);
            text_less(x, y) || (!text_less(y, x) && p@[a] < p@[b])
        } by {
            assert(precedes(keys@, p@[a], p@[b]));
            assert(keys@[p@[a] as int].text@ == name_of(views, kids@[p@[a] as int]));
            assert(keys@[p@[b] as int].text@ == name_of(views, kids@[p@[b] as int]));
        }
        assert(named_by(views, kids@, out@, p@));
    }
    out
}

proof fn lemma_scan_closed(s: FsScanView, obs: ObservationView)
    requires
        scan_closed(s),
    ensures
        scan_closed(after_observation(s, obs)),
{
    let t = after_observation(s, obs);
    let r = path_ref(obs.norm_path);
    assert forall|p: FileRef, i: int|
        #![trigger t.graph.children[p][i]]
        t.graph.children.contains_key(p) && 0 <= i
            < t.graph.children[p].len() implies t.graph.nodes.contains_key(
        t.graph.children[p][i],
    ) by {
        let kid = t.graph.children[p][i];
        if kid != r {
            assert(s.graph.children.contains_key(p) && 0 <= i < s.graph.children[p].len()
                && s.graph.children[p][i] == kid);
        }
    }
}

proof fn lemma_sorted_closed(s: FsScanView, children: Map<FileRef, Seq<FileRef>>)
    requires
        scan_closed(s),
        names_sorted(s.graph, children),
    ensures
        is_closed(GraphView { children, ..s.graph }),
{
    let g = GraphView { children, ..s.graph };
    if g.nodes.contains_key(g.root) {
        assert forall|n: FileRef| #[trigger] reachable(g.children, g.root, n) implies g.nodes.contains_key(
            n,
        ) by {
            let k = choose|k: nat| descends(g.children, g.root, n, k);
            if k > 0 {
                let p = choose|p: FileRef|
                    #[trigger] kids_of(g.children, p).contains(n) && descends(
                        g.children,
                        g.root,
                        p,
                        (k - 1) as nat,
                    );
                let out = children[p];
                let kids = s.graph.children[p];
                assert(by_name(s.graph.nodes, kids, out));
                let q = choose|q: Seq<usize>| #[trigger] named_by(s.graph.nodes, kids, out, q);
                let a = choose|a: int| 0 <= a < out.len() && out[a] == n;
                assert(out[a] == kids[q[a] as int]);
                assert(s.graph.nodes.contains_key(s.graph.children[p][q[a] as int]));
            }
        }
    }
}

// ---------------------------------------------------------------------------
// Laws
// ---------------------------------------------------------------------------

/// A link is noted and not followed: nothing in it is listed, counted or
/// visited.
pub proof fn law_links_are_not_followed(item: WorkItemView, tag: u32)
    ensures
        ({
            let obs = blank_observation(item, Some(tag), false);
            &&& kid_items(obs).len() == 0
            &&& observed_node(obs).reparse_tag == Some(tag)
            &&& observed_node(obs).direct_file_size_bytes == 0
            &&& observed_node(obs).direct_file_count == 0
        }),
{
}

/// A directory that may not be read is noted, and the scan goes on without it.
pub proof fn law_denied_directory_is_noted(s: FsScanView, item: WorkItemView)
    ensures
        ({
            let obs = observed(item, Err(FsEntryError::AccessDenied));
            let after = after_observation(s, obs);
            &&& after.graph.nodes[path_ref(item.norm_path)].access_state
                == AccessState::Inaccessible
            &&& after.pending == s.pending
        }),
{
    let obs = observed(item, Err(FsEntryError::AccessDenied));
    assert(s.pending + kid_items(obs) =~= s.pending);
}

/// The directories that are waited for are those that are still to be handed
/// out and those that were handed out and not observed yet: a scan is done
/// exactly when all have been observed.
pub proof fn law_scan_waits_for_all(s: FsScanView, handed_out: nat, obs: ObservationView)
    requires
        s.outstanding == s.pending.len() + handed_out,
        handed_out > 0,
        s.outstanding + kid_items(obs).len() <= usize::MAX,
    ensures
        after_observation(s, obs).outstanding == after_observation(s, obs).pending.len() + (
        handed_out - 1),
{
}

/// The scan after the first `n` observations. What was handed out in between
/// plays no part in the graph.
pub open spec fn after_observations(
    drive: char,
    seen: Seq<ObservationView>,
    n: nat,
) -> FsScanView
    decreases n,
{
    if n == 0 {
        scan_start(drive)
    } else {
        after_observation(after_observations(drive, seen, (n - 1) as nat), seen[n - 1])
    }
}

/// Observation `i` is of a directory that an earlier one listed.
pub open spec fn has_earlier_parent(seen: Seq<ObservationView>, i: int) -> bool {
    seen[i].parent_norm_path matches Some(p) && exists|j: int|
        0 <= j < i && (#[trigger] seen[j]).norm_path == p
}

/// The first `n` observations can be those of a walk: the root comes first,
/// every other directory after its parent, and no two have the same reference.
pub open spec fn is_walk(seen: Seq<ObservationView>, n: nat) -> bool {
    &&& 0 < n <= seen.len()
    &&& seen[0].parent_norm_path is None
    &&& forall|i: int| 0 < i < n ==> #[trigger] has_earlier_parent(seen, i)
    &&& forall|i: int, j: int|
        0 <= i < j < n ==> path_ref((#[trigger] seen[i]).norm_path) != path_ref(
            (#[trigger] seen[j]).norm_path,
        )
}

/// `c` is the reference of an observation whose parent has the reference `p`.
pub open spec fn was_listed(seen: Seq<ObservationView>, n: nat, p: FileRef, c: FileRef) -> bool {
    exists|i: int|
        0 < i < n && path_ref((#[trigger] seen[i]).norm_path) == c && path_ref(
            seen[i].parent_norm_path->0,
        ) == p
}

/// The edges of a walk lead from a directory to those that it lists.
pub proof fn lemma_walk_edges(drive: char, seen: Seq<ObservationView>, n: nat)
    requires
        is_walk(seen, n),
    ensures
        ({
            let s = after_observations(drive, seen, n);
            &&& s.graph.root == path_ref(seen[0].norm_path)
            &&& forall|k: Seq<char>| #[trigger] s.known.contains_key(k) ==> s.known[k] == path_ref(k)
            &&& forall|i: int| 0 <= i < n ==> s.known.contains_key((#[trigger] seen[i]).norm_path)
            &&& forall|i: int|
                0 <= i < n ==> s.graph.nodes.contains_key(
                    path_ref((#[trigger] seen[i]).norm_path),
                )
            &&& s.graph.nodes.dom().finite()
            &&& forall|p: FileRef, c: FileRef| #[trigger]
                kids_of(s.graph.children, p).contains(c) ==> was_listed(seen, n, p, c)
            &&& forall|p: FileRef| (#[trigger] kids_of(s.graph.children, p)).no_duplicates()
        }),
    decreases n,
{
    let m = (n - 1) as nat;
    let before = after_observations(drive, seen, m);
    let s = after_observations(drive, seen, n);
    let obs = seen[m as int];
    let r = path_ref(obs.norm_path);
    if n == 1 {
        assert(before == scan_start(drive));
        assert forall|p: FileRef| (#[trigger] kids_of(s.graph.children, p)).no_duplicates() by {}
    } else {
        assert(is_walk(seen, m));
        lemma_walk_edges(drive, seen, m);
        assert(has_earlier_parent(seen, m as int));
        let parent = obs.parent_norm_path->0;
        let j = choose|j: int| 0 <= j < m && (#[trigger] seen[j]).norm_path == parent;
        assert(before.known.contains_key(seen[j].norm_path));
        let q = s.known[parent];
        assert(q == path_ref(parent));
        let old_kids = kids_of(before.graph.children, q);
        assert(s.graph.children == before.graph.children.insert(q, old_kids.push(r)));
        assert forall|p: FileRef, c: FileRef| #[trigger] kids_of(before.graph.children, p).contains(
            c,
        ) implies c != r && was_listed(seen, n, p, c) by {
            assert(was_listed(seen, m, p, c));
            let i = choose|i: int|
                0 < i < m && path_ref((#[trigger] seen[i]).norm_path) == c && path_ref(
                    seen[i].parent_norm_path->0,
                ) == p;
            assert(path_ref(seen[i].norm_path) != path_ref(seen[m as int].norm_path));
            assert(0 < i < n);
        }
        assert forall|p: FileRef, c: FileRef| #[trigger] kids_of(s.graph.children, p).contains(
            c,
        ) implies was_listed(seen, n, p, c) by {
            if p == q {
                let a = choose|a: int| 0 <= a < old_kids.push(r).len() && old_kids.push(r)[a] == c;
                if a < old_kids.len() {
                    assert(old_kids[a] == c);
                    assert(kids_of(before.graph.children, p).contains(c));
                } else {
                    assert(path_ref(seen[m as int].norm_path) == c);
                }
            } else {
                assert(kids_of(before.graph.children, p).contains(c));
            }
        }
        assert forall|p: FileRef| (#[trigger] kids_of(s.graph.children, p)).no_duplicates() by {
            assert(kids_of(before.graph.children, p).no_duplicates());
            if p == q {
                assert forall|a: int, b: int|
                    0 <= a < b < old_kids.push(r).len() implies old_kids.push(r)[a]
                    != old_kids.push(r)[b] by {
                    assert(old_kids.contains(old_kids[a]));
                    assert(kids_of(before.graph.children, p).contains(old_kids[a]));
                }
            }
        }
    }
}

/// The directories of a walk form a tree, as long as no two of them have the
/// same reference.
pub proof fn law_walked_directories_form_a_tree(drive: char, seen: Seq<ObservationView>, n: nat)
    requires
        is_walk(seen, n),
    ensures
        is_tree(
            after_observations(drive, seen, n).graph.children,
            after_observations(drive, seen, n).graph.root,
        ),
{
    let g = after_observations(drive, seen, n).graph;
    lemma_walk_edges(drive, seen, n);
    assert forall|p: FileRef, q: FileRef, c: FileRef|
        #[trigger] kids_of(g.children, p).contains(c) && #[trigger] kids_of(g.children, q).contains(
            c,
        ) implies p == q by {
        let i = choose|i: int|
            0 < i < n && path_ref((#[trigger] seen[i]).norm_path) == c && path_ref(
                seen[i].parent_norm_path->0,
            ) == p;
        let j = choose|j: int|
            0 < j < n && path_ref((#[trigger] seen[j]).norm_path) == c && path_ref(
                seen[j].parent_norm_path->0,
            ) == q;
        if i < j {
            assert(path_ref(seen[i].norm_path) != path_ref(seen[j].norm_path));
        } else if j < i {
            assert(path_ref(seen[j].norm_path) != path_ref(seen[i].norm_path));
        }
    }
    assert forall|p: FileRef| !(#[trigger] kids_of(g.children, p)).contains(g.root) by {
        if kids_of(g.children, p).contains(g.root) {
            let i = choose|i: int|
                0 < i < n && path_ref((#[trigger] seen[i]).norm_path) == g.root && path_ref(
                    seen[i].parent_norm_path->0,
                ) == p;
            assert(path_ref(seen[0].norm_path) != path_ref(seen[i].norm_path));
        }
    }
}

/// Sorting the lists of children keeps a tree a tree.
pub proof fn lemma_sorted_tree(g: GraphView, children: Map<FileRef, Seq<FileRef>>)
    requires
        is_tree(g.children, g.root),
        names_sorted(g, children),
    ensures
        is_tree(children, g.root),
        forall|p: FileRef, c: FileRef| #[trigger]
            kids_of(children, p).contains(c) ==> kids_of(g.children, p).contains(c),
{
    assert forall|p: FileRef, c: FileRef| #[trigger] kids_of(children, p).contains(
        c,
    ) implies kids_of(g.children, p).contains(c) by {
        let order = choose|order: Seq<usize>| #[trigger]
            named_by(g.nodes, g.children[p], children[p], order);
        let a = choose|a: int| 0 <= a < children[p].len() && children[p][a] == c;
        assert(g.children[p][order[a] as int] == c);
    }
    assert forall|p: FileRef| (#[trigger] kids_of(children, p)).no_duplicates() by {
        assert(kids_of(g.children, p).no_duplicates());
        if children.contains_key(p) {
            let order = choose|order: Seq<usize>| #[trigger]
                named_by(g.nodes, g.children[p], children[p], order);
            assert forall|a: int, b: int|
                0 <= a < b < children[p].len() implies children[p][a] != children[p][b] by {
                assert(order[a] != order[b]);
                assert(children[p][a] == g.children[p][order[a] as int]);
                assert(children[p][b] == g.children[p][order[b] as int]);
            }
        }
    }
}

/// What can be reached over the sorted lists can be reached.
proof fn lemma_sorted_reach(
    g: GraphView,
    children: Map<FileRef, Seq<FileRef>>,
    n: FileRef,
    k: nat,
)
    requires
        forall|p: FileRef, c: FileRef| #[trigger]
            kids_of(children, p).contains(c) ==> kids_of(g.children, p).contains(c),
        descends(children, g.root, n, k),
    ensures
        descends(g.children, g.root, n, k),
    decreases k,
{
    if k > 0 {
        let p = choose|p: FileRef|
            #[trigger] kids_of(children, p).contains(n) && descends(
                children,
                g.root,
                p,
                (k - 1) as nat,
            );
        lemma_sorted_reach(g, children, p, (k - 1) as nat);
        assert(kids_of(g.children, p).contains(n));
    }
}

/// Everything that can be reached in a walk was observed.
proof fn lemma_walk_closed(drive: char, seen: Seq<ObservationView>, n: nat, r: FileRef, k: nat)
    requires
        is_walk(seen, n),
        descends(
            after_observations(drive, seen, n).graph.children,
            after_observations(drive, seen, n).graph.root,
            r,
            k,
        ),
    ensures
        after_observations(drive, seen, n).graph.nodes.contains_key(r),
{
    let g = after_observations(drive, seen, n).graph;
    lemma_walk_edges(drive, seen, n);
    if k == 0 {
        assert(g.nodes.contains_key(path_ref(seen[0].norm_path)));
    } else {
        let p = choose|p: FileRef|
            #[trigger] kids_of(g.children, p).contains(r) && descends(
                g.children,
                g.root,
                p,
                (k - 1) as nat,
            );
        assert(was_listed(seen, n, p, r));
    }
}

/// Every directory of a walk shows the totals of its own files and of its
/// subdirectories, excluded ones aside, in whatever order the directories were
/// observed.
pub proof fn law_walk_totals_add_up(
    drive: char,
    seen: Seq<ObservationView>,
    n: nat,
    children: Map<FileRef, Seq<FileRef>>,
    excl: Seq<Seq<char>>,
    r: FileRef,
)
    requires
        is_walk(seen, n),
        names_sorted(after_observations(drive, seen, n).graph, children),
        reachable(children, after_observations(drive, seen, n).graph.root, r),
    ensures
        ({
            let g = aggregated(
                GraphView { children, ..after_observations(drive, seen, n).graph },
                excl,
            );
            shown_totals(g.nodes[r]) == shown_subtotal(g, r, kids_of(children, r).len())
        }),
{
    let g = after_observations(drive, seen, n).graph;
    let sorted = GraphView { children, ..g };
    lemma_walk_edges(drive, seen, n);
    law_walked_directories_form_a_tree(drive, seen, n);
    lemma_sorted_tree(g, children);
    assert forall|x: FileRef| #[trigger] reachable(children, g.root, x) implies g.nodes.contains_key(
        x,
    ) by {
        let k = choose|k: nat| descends(children, g.root, x, k);
        lemma_sorted_reach(g, children, x, k);
        lemma_walk_closed(drive, seen, n, x, k);
    }
    assert(g.nodes.contains_key(path_ref(seen[0].norm_path)));
    law_totals_add_up(sorted, excl, r);
}

} // verus!
