//! Plain values that describe a volume and its raw records.

use vstd::prelude::*;

verus! {

/// Geometry of an NTFS volume.
#[derive(Debug, Clone, Copy)]
pub struct VolumeData {
    pub bytes_per_sector: u32,
    pub bytes_per_cluster: u32,
    pub bytes_per_file_record_segment: u32,
    pub mft_valid_data_length: u64,
    pub major_version: u16,
    pub minor_version: u16,
    pub slot_count: u64,
}

/// One file record as it was read, before any repair.
#[derive(Debug, Clone)]
pub struct RawFileRecord {
    /// Record number: the low 48 bits of the file reference.
    pub file_reference: u64,
    pub bytes: Vec<u8>,
}

/// Why a volume could not be opened, queried or read.
#[derive(Debug, Clone)]
pub enum VolumeError {
    AccessDenied,
    UnsupportedFilesystem { actual: String },
    InvalidVolumeData,
    Io { code: u32, operation: String },
}

/// How a request for elevation ended.
#[derive(Debug, Clone, Copy, PartialEq, Eq, Structural)]
pub enum ElevationOutcome {
    Launched,
    Cancelled,
    Failed { code: u32 },
}

} // verus!
