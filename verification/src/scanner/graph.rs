//! The directory graph.

use crate::mft::FileRef;
use crate::models::{copy_opt, opt_view, AccessState, PresetCategory, ScanItemStatus};
use crate::refmap::RefMap;
use vstd::prelude::*;

verus! {

/// One directory.
#[derive(Debug, Clone)]
pub struct DirectoryNode {
    pub file_ref: FileRef,
    /// Full path; the root's ends in a backslash.
    pub path: String,
    /// Last component; the drive letter for the root.
    pub display_name: String,
    /// Distance from the root.
    pub depth: u32,
    pub reparse_tag: Option<u32>,
    pub is_junction: bool,
    pub matched_preset: Option<String>,
    pub category: Option<PresetCategory>,
    pub auto_migrate: bool,
    pub access_state: AccessState,
    pub scan_status: Option<ScanItemStatus>,
    pub migration_id: Option<String>,
    pub linked_target_size_bytes: Option<u64>,
    pub visible: bool,
    /// Size of the files directly in the directory.
    pub direct_file_size_bytes: u64,
    pub direct_file_count: u64,
    pub direct_dir_count: u32,
    /// Size of the directory together with what is below it and not excluded.
    pub subtree_size_bytes: u64,
    pub subtree_file_count: u64,
    /// Directories below and the directory itself.
    pub subtree_dir_count: u64,
    pub excluded: bool,
    pub reachable_from_root: bool,
}

/// Model of a [`DirectoryNode`].
pub struct DirectoryNodeView {
    pub file_ref: FileRef,
    pub path: Seq<char>,
    pub display_name: Seq<char>,
    pub depth: u32,
    pub reparse_tag: Option<u32>,
    pub is_junction: bool,
    pub matched_preset: Option<Seq<char>>,
    pub category: Option<PresetCategory>,
    pub auto_migrate: bool,
    pub access_state: AccessState,
    pub scan_status: Option<ScanItemStatus>,
    pub migration_id: Option<Seq<char>>,
    pub linked_target_size_bytes: Option<u64>,
    pub visible: bool,
    pub direct_file_size_bytes: u64,
    pub direct_file_count: u64,
    pub direct_dir_count: u32,
    pub subtree_size_bytes: u64,
    pub subtree_file_count: u64,
    pub subtree_dir_count: u64,
    pub excluded: bool,
    pub reachable_from_root: bool,
}

impl View for DirectoryNode {
    type V = DirectoryNodeView;

    open spec fn view(&self) -> DirectoryNodeView {
        DirectoryNodeView {
            file_ref: self.file_ref,
            path: self.path@,
            display_name: self.display_name@,
            depth: self.depth,
            reparse_tag: self.reparse_tag,
            is_junction: self.is_junction,
            matched_preset: opt_view(self.matched_preset),
            category: self.category,
            auto_migrate: self.auto_migrate,
            access_state: self.access_state,
            scan_status: self.scan_status,
            migration_id: opt_view(self.migration_id),
            linked_target_size_bytes: self.linked_target_size_bytes,
            visible: self.visible,
            direct_file_size_bytes: self.direct_file_size_bytes,
            direct_file_count: self.direct_file_count,
            direct_dir_count: self.direct_dir_count,
            subtree_size_bytes: self.subtree_size_bytes,
            subtree_file_count: self.subtree_file_count,
            subtree_dir_count: self.subtree_dir_count,
            excluded: self.excluded,
            reachable_from_root: self.reachable_from_root,
        }
    }
}

impl DirectoryNode {
    /// A copy of this value.
    pub fn copy(&self) -> (r: Self)
        ensures
            r@ == self@,
    {
        DirectoryNode {
            file_ref: self.file_ref,
            path: self.path.clone(),
            display_name: self.display_name.clone(),
            depth: self.depth,
            reparse_tag: self.reparse_tag,
            is_junction: self.is_junction,
            matched_preset: copy_opt(&self.matched_preset),
            category: self.category,
            auto_migrate: self.auto_migrate,
            access_state: self.access_state,
            scan_status: self.scan_status,
            migration_id: copy_opt(&self.migration_id),
            linked_target_size_bytes: self.linked_target_size_bytes,
            visible: self.visible,
            direct_file_size_bytes: self.direct_file_size_bytes,
            direct_file_count: self.direct_file_count,
            direct_dir_count: self.direct_dir_count,
            subtree_size_bytes: self.subtree_size_bytes,
            subtree_file_count: self.subtree_file_count,
            subtree_dir_count: self.subtree_dir_count,
            excluded: self.excluded,
            reachable_from_root: self.reachable_from_root,
        }
    }
}

/// What was noticed while the graph was built.
#[derive(Debug, Clone, Copy, PartialEq, Eq, Structural)]
pub struct GraphDiagnostics {
    /// Directories' names whose parent reference has an old sequence number.
    pub stale_sequence_dirs: u64,
    /// Files' names whose parent reference has an old sequence number.
    pub stale_sequence_files: u64,
    /// Names whose parent record does not exist.
    pub missing_parent: u64,
    /// Names of directories that name a second parent.
    pub duplicate_dir_entry: u64,
    /// Directories that name themselves as their parent.
    pub cycle_nodes: u64,
    /// Directories that cannot be reached from the root.
    pub unreachable_nodes: u64,
    /// There is no root directory.
    pub root_missing: bool,
    /// Files' names whose parent is no directory.
    pub non_dir_parent_files: u64,
    /// Directories' names whose parent is no directory.
    pub non_dir_parent_dirs: u64,
}

impl GraphDiagnostics {
    /// Nothing was noticed.
    pub fn none() -> (r: Self)
        ensures
            r == Self::spec_none(),
    {
        GraphDiagnostics {
            stale_sequence_dirs: 0,
            stale_sequence_files: 0,
            missing_parent: 0,
            duplicate_dir_entry: 0,
            cycle_nodes: 0,
            unreachable_nodes: 0,
            root_missing: false,
            non_dir_parent_files: 0,
            non_dir_parent_dirs: 0,
        }
    }

    /// Nothing was noticed.
    pub open spec fn spec_none() -> Self {
        GraphDiagnostics {
            stale_sequence_dirs: 0,
            stale_sequence_files: 0,
            missing_parent: 0,
            duplicate_dir_entry: 0,
            cycle_nodes: 0,
            unreachable_nodes: 0,
            root_missing: false,
            non_dir_parent_files: 0,
            non_dir_parent_dirs: 0,
        }
    }
}

/// Directories and the edges between them.
#[derive(Debug, Clone)]
pub struct DirectoryGraph {
    pub nodes: RefMap<DirectoryNode>,
    pub root: FileRef,
    pub children: RefMap<Vec<FileRef>>,
    /// Size of the file system's own records.
    pub system_metadata_size_bytes: u64,
    pub diagnostics: GraphDiagnostics,
    /// Size of the topmost excluded directories.
    pub excluded_subtree_size_bytes: u64,
}

/// Model of a [`DirectoryGraph`].
pub struct GraphView {
    pub nodes: Map<FileRef, DirectoryNodeView>,
    pub root: FileRef,
    pub children: Map<FileRef, Seq<FileRef>>,
    pub system_metadata_size_bytes: u64,
    pub diagnostics: GraphDiagnostics,
    pub excluded_subtree_size_bytes: u64,
}

/// The models of the nodes in a map.
pub open spec fn nodes_view(nodes: Map<FileRef, DirectoryNode>) -> Map<FileRef, DirectoryNodeView> {
    Map::new(|k: FileRef| nodes.contains_key(k), |k: FileRef| nodes[k]@)
}

/// The lists of children in a map.
pub open spec fn children_view(children: Map<FileRef, Vec<FileRef>>) -> Map<FileRef, Seq<FileRef>> {
    Map::new(|k: FileRef| children.contains_key(k), |k: FileRef| children[k]@)
}

impl View for DirectoryGraph {
    type V = GraphView;

    open spec fn view(&self) -> GraphView {
        GraphView {
            nodes: nodes_view(self.nodes@),
            root: self.root,
            children: children_view(self.children@),
            system_metadata_size_bytes: self.system_metadata_size_bytes,
            diagnostics: self.diagnostics,
            excluded_subtree_size_bytes: self.excluded_subtree_size_bytes,
        }
    }
}

/// The children of `n`, in order.
pub open spec fn kids_of(children: Map<FileRef, Seq<FileRef>>, n: FileRef) -> Seq<FileRef> {
    if children.contains_key(n) {
        children[n]
    } else {
        Seq::empty()
    }
}

impl DirectoryGraph {
    /// The maps inside the graph are in order.
    pub open spec fn wf(&self) -> bool {
        self.nodes.wf() && self.children.wf()
    }

    /// A graph without directories.
    pub fn empty(root: FileRef) -> (r: Self)
        ensures
            r.wf(),
            r.root == root,
            r.nodes@ == Map::<FileRef, DirectoryNode>::empty(),
            r.children@ == Map::<FileRef, Vec<FileRef>>::empty(),
            r.system_metadata_size_bytes == 0,
            r.diagnostics == GraphDiagnostics::spec_none(),
            r.excluded_subtree_size_bytes == 0,
    {
        DirectoryGraph {
            nodes: RefMap::new(),
            root,
            children: RefMap::new(),
            system_metadata_size_bytes: 0,
            diagnostics: GraphDiagnostics::none(),
            excluded_subtree_size_bytes: 0,
        }
    }

    /// How many directories cannot be reached from the root.
    pub fn orphan_count(&self) -> (r: u64)
        ensures
            r == self.diagnostics.unreachable_nodes,
    {
        self.diagnostics.unreachable_nodes
    }
}

} // verus!
