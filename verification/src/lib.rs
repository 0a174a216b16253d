//! Verified core of a disk-space manager for NTFS volumes.

pub mod app_state;
pub mod atomic_write;
pub mod clock;
pub mod commands;
pub mod copy_tree;
pub mod error;
pub mod explore;
pub mod extension;
pub mod file_ops;
pub mod fixed_tree;
pub mod history;
pub mod journal;
pub mod junction;
pub mod keys;
pub mod laws;
pub mod mft;
pub mod migrator;
pub mod models;
pub mod pathmap;
pub mod paths;
pub mod process_probe;
pub mod refmap;
pub mod safety;
pub mod scanner;
pub mod sort;
pub mod store;
pub mod text;
pub mod vss;
pub mod win32;

pub use app_state::is_elevated_scan_start;
