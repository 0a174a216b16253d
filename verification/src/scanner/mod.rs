//! From records and directory listings to the tree that is shown.

pub mod aggregate;
pub mod ancestors;
pub mod annotate;
pub mod construct;
pub mod context;
pub mod engine;
pub mod fs;
pub mod graph;
pub mod levels;
pub mod materialize;
pub mod order;
pub mod tree;
pub mod tree_model;
pub mod walk;
pub mod walks;

pub use crate::paths::{expand_env, is_path_excluded, matches_preset, normalize, EnvVars};
pub use aggregate::aggregate_and_exclude;
pub use annotate::{
    annotate_graph, annotate_graph_with_callbacks, annotate_graph_with_skipped_records,
    build_root_summary, LinkProbes,
};
pub use construct::build_graph;
pub use engine::{generate_scan_id, RealScanEngine, ScanDriveError, ScanEngine, ScanOutcome};
pub use fs::{
    map_io_error, DirWorkItem, FsEntry, FsEntryError, FsEntryResult, FsReader, FsScan,
};
pub use graph::{DirectoryGraph, DirectoryNode, GraphDiagnostics};
pub use materialize::materialize;
pub use tree::TreeStore;
