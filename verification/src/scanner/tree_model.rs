//! What the directory graph of a set of records is.

use super::aggregate::aggregated;
use super::graph::{DirectoryNodeView, GraphDiagnostics, GraphView};
use crate::keys::ascending_keys;
use crate::mft::index::{sat64, ROOT_RECORD_NO};
use crate::mft::record::effective_names;
use crate::mft::types::{MftNameView, MftRecordView};
use crate::mft::FileRef;
use crate::models::AccessState;
use crate::paths::{drive_root, joined, normal_list, EnvVarsView};
use vstd::prelude::*;

verus! {

// ---------------------------------------------------------------------------
// Model: which records are directories, and where they are filed
// ---------------------------------------------------------------------------

/// The record belongs to the file system itself.
pub open spec fn is_system(no: u64) -> bool {
    no < 16 && no != ROOT_RECORD_NO
}

/// Record `no` is a directory in use.
pub open spec fn is_directory(recs: Map<u64, MftRecordView>, no: u64) -> bool {
    recs.contains_key(no) && !is_system(no) && recs[no].is_dir && recs[no].in_use
}

/// Record `no` is a file in use.
pub open spec fn is_plain_file(recs: Map<u64, MftRecordView>, no: u64) -> bool {
    recs.contains_key(no) && !is_system(no) && !recs[no].is_dir && recs[no].in_use
}

/// `r` refers to a directory in use, with the right sequence number.
pub open spec fn is_dir_ref(recs: Map<u64, MftRecordView>, r: FileRef) -> bool {
    is_directory(recs, r.record_no) && recs[r.record_no].id == r
}

/// What a reference to a parent refers to.
pub enum ParentKind {
    /// A directory.
    Directory,
    /// Nothing.
    Missing,
    /// A record that has been reused since.
    Stale,
    /// Something that is no directory, or belongs to the file system.
    Other,
}

/// What `p` refers to.
pub open spec fn parent_kind(recs: Map<u64, MftRecordView>, p: FileRef) -> ParentKind {
    if is_dir_ref(recs, p) {
        ParentKind::Directory
    } else if !recs.contains_key(p.record_no) {
        ParentKind::Missing
    } else if recs[p.record_no].id.sequence != p.sequence {
        ParentKind::Stale
    } else {
        ParentKind::Other
    }
}

/// The names under which record `no` is filed.
pub open spec fn filed_names(recs: Map<u64, MftRecordView>, no: u64) -> Seq<MftNameView> {
    effective_names(recs[no].names)
}

/// The first of the first `n` names whose parent is a directory other than `id`.
pub open spec fn first_link(
    recs: Map<u64, MftRecordView>,
    id: FileRef,
    names: Seq<MftNameView>,
    n: nat,
) -> Option<MftNameView>
    decreases n,
{
    if n == 0 {
        None
    } else if first_link(recs, id, names, (n - 1) as nat) is Some {
        first_link(recs, id, names, (n - 1) as nat)
    } else if names[n - 1].parent != id && is_dir_ref(recs, names[n - 1].parent) {
        Some(names[n - 1])
    } else {
        None
    }
}

/// The name under which the directory `r` hangs in the tree, and its parent.
/// The root directory hangs nowhere.
pub open spec fn link_of(recs: Map<u64, MftRecordView>, r: FileRef) -> Option<MftNameView> {
    if is_dir_ref(recs, r) && r.record_no != ROOT_RECORD_NO {
        let names = filed_names(recs, r.record_no);
        first_link(recs, r, names, names.len())
    } else {
        None
    }
}

/// Record `no` hangs in the tree under `p`.
pub open spec fn hangs_under(recs: Map<u64, MftRecordView>, no: u64, p: FileRef) -> bool {
    is_directory(recs, no) && link_of(recs, recs[no].id) is Some && link_of(
        recs,
        recs[no].id,
    )->0.parent == p
}

/// Those of the first `n` records that hang under `p`.
pub open spec fn hanging(
    recs: Map<u64, MftRecordView>,
    keys: Seq<u64>,
    p: FileRef,
    n: nat,
) -> Seq<FileRef>
    decreases n,
{
    if n == 0 {
        Seq::empty()
    } else {
        let before = hanging(recs, keys, p, (n - 1) as nat);
        if hangs_under(recs, keys[n - 1], p) {
            before.push(recs[keys[n - 1]].id)
        } else {
            before
        }
    }
}

/// The children of `p`, by record number.
pub open spec fn tree_kids(recs: Map<u64, MftRecordView>, p: FileRef) -> Seq<FileRef> {
    let keys = ascending_keys(recs.dom());
    hanging(recs, keys, p, keys.len())
}

/// The root directory.
pub open spec fn tree_root(recs: Map<u64, MftRecordView>) -> Option<FileRef> {
    if recs.contains_key(ROOT_RECORD_NO) && recs[ROOT_RECORD_NO].is_dir {
        Some(recs[ROOT_RECORD_NO].id)
    } else {
        None
    }
}

/// `r` hangs `k` levels below `root`.
pub open spec fn at_level(
    recs: Map<u64, MftRecordView>,
    root: FileRef,
    r: FileRef,
    k: nat,
) -> bool
    decreases k,
{
    if k == 0 {
        r == root && is_dir_ref(recs, root)
    } else {
        link_of(recs, r) is Some && at_level(recs, root, link_of(recs, r)->0.parent, (k - 1) as nat)
    }
}

/// `r` hangs in the tree.
pub open spec fn in_tree(recs: Map<u64, MftRecordView>, r: FileRef) -> bool {
    tree_root(recs) is Some && exists|k: nat| at_level(recs, tree_root(recs)->0, r, k)
}

/// How far below the root `r` hangs.
pub open spec fn level_of(recs: Map<u64, MftRecordView>, r: FileRef) -> nat {
    choose|k: nat| at_level(recs, tree_root(recs)->0, r, k)
}

/// The path of `r`, which hangs `k` levels below the root.
pub open spec fn tree_path(
    recs: Map<u64, MftRecordView>,
    drive: char,
    r: FileRef,
    k: nat,
) -> Seq<char>
    decreases k,
{
    if k == 0 {
        drive_root(drive)
    } else {
        let link = link_of(recs, r)->0;
        joined(tree_path(recs, drive, link.parent, (k - 1) as nat), link.name)
    }
}

// ---------------------------------------------------------------------------
// Model: files
// ---------------------------------------------------------------------------

/// How many of the first `n` names are filed in `p`.
pub open spec fn names_in_dir(names: Seq<MftNameView>, p: FileRef, n: nat) -> nat
    decreases n,
{
    if n == 0 {
        0
    } else {
        names_in_dir(names, p, (n - 1) as nat) + if names[n - 1].parent == p {
            1nat
        } else {
            0nat
        }
    }
}

/// Number of names in `p` of the files among the first `n` records.
pub open spec fn files_in_dir(
    recs: Map<u64, MftRecordView>,
    keys: Seq<u64>,
    p: FileRef,
    n: nat,
) -> nat
    decreases n,
{
    if n == 0 {
        0
    } else {
        let no = keys[n - 1];
        files_in_dir(recs, keys, p, (n - 1) as nat) + if is_plain_file(recs, no) {
            names_in_dir(filed_names(recs, no), p, filed_names(recs, no).len())
        } else {
            0
        }
    }
}

/// Size of the files among the first `n` records, once for each name in `p`.
pub open spec fn bytes_in_dir(
    recs: Map<u64, MftRecordView>,
    keys: Seq<u64>,
    p: FileRef,
    n: nat,
) -> nat
    decreases n,
{
    if n == 0 {
        0
    } else {
        let no = keys[n - 1];
        bytes_in_dir(recs, keys, p, (n - 1) as nat) + if is_plain_file(recs, no) {
            names_in_dir(filed_names(recs, no), p, filed_names(recs, no).len())
                * recs[no].logical_size as nat
        } else {
            0
        }
    }
}

/// Size of the file system's own records among the first `n`.
pub open spec fn system_bytes(recs: Map<u64, MftRecordView>, keys: Seq<u64>, n: nat) -> nat
    decreases n,
{
    if n == 0 {
        0
    } else {
        system_bytes(recs, keys, (n - 1) as nat) + if is_system(keys[n - 1]) {
            recs[keys[n - 1]].logical_size as nat
        } else {
            0
        }
    }
}

/// Number of directories among the first `n` records.
pub open spec fn dir_total(recs: Map<u64, MftRecordView>, keys: Seq<u64>, n: nat) -> nat
    decreases n,
{
    if n == 0 {
        0
    } else {
        dir_total(recs, keys, (n - 1) as nat) + if is_directory(recs, keys[n - 1]) {
            1nat
        } else {
            0nat
        }
    }
}

// ---------------------------------------------------------------------------
// Model: what is noticed
// ---------------------------------------------------------------------------

/// How many of the first `n` names refer to a parent of the given kind, names
/// that refer to `own` aside.
pub open spec fn names_of_kind(
    recs: Map<u64, MftRecordView>,
    names: Seq<MftNameView>,
    own: Option<FileRef>,
    kind: ParentKind,
    n: nat,
) -> nat
    decreases n,
{
    if n == 0 {
        0
    } else {
        names_of_kind(recs, names, own, kind, (n - 1) as nat) + if own != Some(names[n - 1].parent)
            && parent_kind(recs, names[n - 1].parent) == kind {
            1nat
        } else {
            0nat
        }
    }
}

/// How many of the first `n` names of the directory `id` refer to another
/// directory than the first name that refers to one.
pub open spec fn second_parents(
    recs: Map<u64, MftRecordView>,
    id: FileRef,
    names: Seq<MftNameView>,
    n: nat,
) -> nat
    decreases n,
{
    if n == 0 {
        0
    } else {
        let p = names[n - 1].parent;
        let first = first_link(recs, id, names, (n - 1) as nat);
        second_parents(recs, id, names, (n - 1) as nat) + if p != id && is_dir_ref(recs, p) && first
            is Some && first->0.parent != p {
            1nat
        } else {
            0nat
        }
    }
}

/// One of the names refers to the directory `id` itself.
pub open spec fn names_itself(id: FileRef, names: Seq<MftNameView>) -> bool {
    exists|i: int| 0 <= i < names.len() && (#[trigger] names[i]).parent == id
}

/// What can be noticed.
pub enum Finding {
    StaleDirs,
    StaleFiles,
    MissingParent,
    DuplicateDirEntry,
    Cycle,
    OtherParentFiles,
    OtherParentDirs,
}

/// How often record `no` gives rise to a finding.
pub open spec fn findings_in(recs: Map<u64, MftRecordView>, no: u64, f: Finding) -> nat {
    let names = filed_names(recs, no);
    let n = names.len();
    if is_plain_file(recs, no) {
        match f {
            Finding::StaleFiles => names_of_kind(recs, names, None, ParentKind::Stale, n),
            Finding::MissingParent => names_of_kind(recs, names, None, ParentKind::Missing, n),
            Finding::OtherParentFiles => names_of_kind(recs, names, None, ParentKind::Other, n),
            _ => 0,
        }
    } else if is_directory(recs, no) && no != ROOT_RECORD_NO {
        let id = recs[no].id;
        match f {
            Finding::StaleDirs => names_of_kind(recs, names, Some(id), ParentKind::Stale, n),
            Finding::MissingParent => names_of_kind(recs, names, Some(id), ParentKind::Missing, n),
            Finding::OtherParentDirs => names_of_kind(recs, names, Some(id), ParentKind::Other, n),
            Finding::DuplicateDirEntry => second_parents(recs, id, names, n),
            Finding::Cycle => if names_itself(id, names) {
                1
            } else {
                0
            },
            _ => 0,
        }
    } else {
        0
    }
}

/// How often the first `n` records give rise to a finding.
pub open spec fn findings(
    recs: Map<u64, MftRecordView>,
    keys: Seq<u64>,
    f: Finding,
    n: nat,
) -> nat
    decreases n,
{
    if n == 0 {
        0
    } else {
        findings(recs, keys, f, (n - 1) as nat) + findings_in(recs, keys[n - 1], f)
    }
}

/// The counter for a finding.
pub open spec fn counter(recs: Map<u64, MftRecordView>, f: Finding) -> u64 {
    let keys = ascending_keys(recs.dom());
    sat64(findings(recs, keys, f, keys.len())) as u64
}

// ---------------------------------------------------------------------------
// Model: the graph
// ---------------------------------------------------------------------------

/// The low 32 bits of a number.
pub open spec fn low32(n: nat) -> u32 {
    (n % 0x1_0000_0000) as u32
}

/// The low 32 bits of a number.
pub fn count32(n: usize) -> (r: u32)
    ensures
        r == low32(n as nat),
        n <= u32::MAX ==> r == n,
{
    (n as u64 % 0x1_0000_0000) as u32
}

/// The depth as it is stored.
pub open spec fn stored_depth(k: nat) -> u32 {
    if k > u32::MAX {
        u32::MAX
    } else {
        k as u32
    }
}

/// The node of the directory `r`, which hangs `k` levels below the root.
pub open spec fn tree_node(
    recs: Map<u64, MftRecordView>,
    drive: char,
    r: FileRef,
    k: nat,
) -> DirectoryNodeView {
    let keys = ascending_keys(recs.dom());
    DirectoryNodeView {
        file_ref: r,
        path: tree_path(recs, drive, r, k),
        display_name: if k == 0 {
            seq![drive]
        } else {
            link_of(recs, r)->0.name
        },
        depth: stored_depth(k),
        reparse_tag: recs[r.record_no].reparse_tag,
        is_junction: false,
        matched_preset: None,
        category: None,
        auto_migrate: false,
        access_state: AccessState::Unknown,
        scan_status: None,
        migration_id: None,
        linked_target_size_bytes: None,
        visible: false,
        direct_file_size_bytes: sat64(bytes_in_dir(recs, keys, r, keys.len())) as u64,
        direct_file_count: sat64(files_in_dir(recs, keys, r, keys.len())) as u64,
        direct_dir_count: low32(tree_kids(recs, r).len()),
        subtree_size_bytes: 0,
        subtree_file_count: 0,
        subtree_dir_count: 0,
        excluded: false,
        reachable_from_root: true,
    }
}

/// The nodes of the tree.
pub open spec fn tree_nodes(recs: Map<u64, MftRecordView>, drive: char) -> Map<
    FileRef,
    DirectoryNodeView,
> {
    Map::new(
        |r: FileRef| in_tree(recs, r),
        |r: FileRef| tree_node(recs, drive, r, level_of(recs, r)),
    )
}

/// The tree before exclusions and totals.
pub open spec fn plain_tree(recs: Map<u64, MftRecordView>, drive: char) -> GraphView {
    let keys = ascending_keys(recs.dom());
    let nodes = tree_nodes(recs, drive);
    GraphView {
        nodes,
        root: match tree_root(recs) {
            Some(r) => r,
            None => FileRef { record_no: ROOT_RECORD_NO, sequence: 0 },
        },
        children: Map::new(
            |r: FileRef| in_tree(recs, r) && tree_kids(recs, r).len() > 0,
            |r: FileRef| tree_kids(recs, r),
        ),
        system_metadata_size_bytes: sat64(system_bytes(recs, keys, keys.len())) as u64,
        diagnostics: GraphDiagnostics {
            stale_sequence_dirs: counter(recs, Finding::StaleDirs),
            stale_sequence_files: counter(recs, Finding::StaleFiles),
            missing_parent: counter(recs, Finding::MissingParent),
            duplicate_dir_entry: counter(recs, Finding::DuplicateDirEntry),
            cycle_nodes: counter(recs, Finding::Cycle),
            unreachable_nodes: (dir_total(recs, keys, keys.len()) - nodes.len()) as u64,
            root_missing: tree_root(recs) is None,
            non_dir_parent_files: counter(recs, Finding::OtherParentFiles),
            non_dir_parent_dirs: counter(recs, Finding::OtherParentDirs),
        },
        excluded_subtree_size_bytes: 0,
    }
}

/// The directory graph of the records.
pub open spec fn graph_of(
    recs: Map<u64, MftRecordView>,
    excluded_paths: Seq<Seq<char>>,
    drive: char,
    env: EnvVarsView,
) -> GraphView {
    aggregated(plain_tree(recs, drive), normal_list(excluded_paths, env, excluded_paths.len()))
}

} // verus!
