//! The scan as a whole.

use super::annotate::{
    annotate_graph_with_skipped_records, annotated_by, root_summary, LinkProbes,
};
use super::aggregate::aggregated;
use super::construct::build_graph;
use super::fs::{names_sorted, FsScan};
use super::graph::{DirectoryGraph, GraphView};
use super::materialize::{materialize, shows};
use super::tree::{TreeStore, TreeStoreView};
use super::tree_model::graph_of;
use crate::mft::index::{enumeration, fails_by, slot_count, slots_read, MftIndexView, Slot};
use crate::mft::reader::geometry_fault;
use crate::mft::{enumerate_mft, FileRef, MftError, MftIndex, RecordReader};
use crate::models::{
    migrations_view, strings_view, Config, ConfigView, CurrentPhase, FastScanFailure, Migration,
    MigrationView, RootFileSummary, ScanDiagnostics, ScanMode, ScanProgressEvent, ScanSource,
};
use crate::paths::{normal_list, normalize_excluded, EnvVars, EnvVarsView};
use crate::text::{decimal, lemma_decimal_injective, push_decimal_wide};
use crate::win32::{VolumeData, VolumeError};
use vstd::prelude::*;
use vstd::string::*;

verus! {

/// Why a scan gave no tree.
#[derive(Debug)]
pub enum ScanDriveError {
    NeedsElevation,
    FastScanFailure(FastScanFailure),
    Cancelled,
}

/// A finished scan.
pub struct ScanOutcome {
    pub store: TreeStore,
    pub diagnostics: ScanDiagnostics,
}

/// Something that scans a drive.
pub trait ScanEngine {
    fn run(
        &self,
        mode: ScanMode,
        root_drive: char,
        cfg: &Config,
        migrations: &Vec<Migration>,
        excluded_paths: &Vec<String>,
    ) -> (r: Result<ScanOutcome, ScanDriveError>)
        ensures
            r is Ok ==> r->Ok_0.store.wf(),
    ;
}

/// The error of a scan for an error of the volume.
pub open spec fn volume_scan_error(e: VolumeError) -> ScanDriveError {
    match e {
        VolumeError::AccessDenied => ScanDriveError::NeedsElevation,
        VolumeError::UnsupportedFilesystem { actual } => ScanDriveError::FastScanFailure(
            FastScanFailure::UnsupportedFilesystem { actual },
        ),
        VolumeError::InvalidVolumeData => ScanDriveError::FastScanFailure(
            FastScanFailure::InvalidVolumeData,
        ),
        VolumeError::Io { code, operation } => ScanDriveError::FastScanFailure(
            FastScanFailure::Io { code: Some(signed32(code)) },
        ),
    }
}

/// The value with the same 32 bits, signed.
pub open spec fn signed32(code: u32) -> i32 {
    if code >= 0x8000_0000 {
        (code - 0x1_0000_0000) as i32
    } else {
        code as i32
    }
}

/// The value with the same 32 bits, signed.
fn to_signed32(code: u32) -> (r: i32)
    ensures
        r == signed32(code),
{
    if code >= 0x8000_0000 {
        (code as i64 - 0x1_0000_0000) as i32
    } else {
        code as i32
    }
}

/// The error of a scan for an error of the volume.
pub fn map_volume_error(e: VolumeError) -> (r: ScanDriveError)
    ensures
        r == volume_scan_error(e),
{
    match e {
        VolumeError::AccessDenied => ScanDriveError::NeedsElevation,
        VolumeError::UnsupportedFilesystem { actual } => ScanDriveError::FastScanFailure(
            FastScanFailure::UnsupportedFilesystem { actual },
        ),
        VolumeError::InvalidVolumeData => ScanDriveError::FastScanFailure(
            FastScanFailure::InvalidVolumeData,
        ),
        VolumeError::Io { code, .. } => ScanDriveError::FastScanFailure(
            FastScanFailure::Io { code: Some(to_signed32(code)) },
        ),
    }
}

/// The error of a scan for an error of the MFT.
pub open spec fn mft_scan_error(e: MftError) -> ScanDriveError {
    match e {
        MftError::NeedElevation => ScanDriveError::NeedsElevation,
        MftError::UnsupportedFilesystem { actual } => ScanDriveError::FastScanFailure(
            FastScanFailure::UnsupportedFilesystem { actual },
        ),
        MftError::UnsupportedNtfsVersion { major, minor } => ScanDriveError::FastScanFailure(
            FastScanFailure::UnsupportedNtfsVersion { major, minor },
        ),
        MftError::InvalidVolumeData => ScanDriveError::FastScanFailure(
            FastScanFailure::InvalidVolumeData,
        ),
        MftError::RootRecordMissing => ScanDriveError::FastScanFailure(
            FastScanFailure::RootRecordMissing,
        ),
        MftError::ExcessiveRecordErrors { skipped, scanned } => ScanDriveError::FastScanFailure(
            FastScanFailure::ExcessiveRecordErrors { skipped, scanned },
        ),
        MftError::BadRecord { ref_no } => ScanDriveError::FastScanFailure(
            FastScanFailure::Io { code: None },
        ),
        MftError::Io(f) => ScanDriveError::FastScanFailure(FastScanFailure::Io { code: f.code }),
        MftError::Cancelled => ScanDriveError::Cancelled,
    }
}

/// The error of a scan for an error of the MFT.
pub fn map_mft_error(e: MftError) -> (r: ScanDriveError)
    ensures
        r == mft_scan_error(e),
{
    match e {
        MftError::NeedElevation => ScanDriveError::NeedsElevation,
        MftError::UnsupportedFilesystem { actual } => ScanDriveError::FastScanFailure(
            FastScanFailure::UnsupportedFilesystem { actual },
        ),
        MftError::UnsupportedNtfsVersion { major, minor } => ScanDriveError::FastScanFailure(
            FastScanFailure::UnsupportedNtfsVersion { major, minor },
        ),
        MftError::InvalidVolumeData => ScanDriveError::FastScanFailure(
            FastScanFailure::InvalidVolumeData,
        ),
        MftError::RootRecordMissing => ScanDriveError::FastScanFailure(
            FastScanFailure::RootRecordMissing,
        ),
        MftError::ExcessiveRecordErrors { skipped, scanned } => ScanDriveError::FastScanFailure(
            FastScanFailure::ExcessiveRecordErrors { skipped, scanned },
        ),
        MftError::BadRecord { .. } => ScanDriveError::FastScanFailure(
            FastScanFailure::Io { code: None },
        ),
        MftError::Io(f) => ScanDriveError::FastScanFailure(FastScanFailure::Io { code: f.code }),
        MftError::Cancelled => ScanDriveError::Cancelled,
    }
}

/// The id of a scan that starts the given number of nanoseconds after the
/// epoch, or before it.
pub fn generate_scan_id(nanos_since_epoch: Option<u128>) -> (r: String)
    ensures
        r@ == match nanos_since_epoch {
            Some(n) => decimal(n as nat),
            None => "0"@,
        },
{
    match nanos_since_epoch {
        Some(n) => {
            let mut out = String::new();
            push_decimal_wide(&mut out, n);
            assert(out@ =~= decimal(n as nat));
            out
        },
        None => String::from_str("0"),
    }
}

/// What was counted while the index was read and the graph was built.
pub open spec fn mft_diagnostics(index: MftIndexView, g: GraphView, d: ScanDiagnostics) -> bool {
    &&& d.scanned_records == index.scanned_records
    &&& d.scanned_dirs == g.nodes.len()
    &&& d.scanned_files == index.scanned_files
    &&& d.skipped_records == index.skipped_records
    &&& d.orphan_entries == g.diagnostics.unreachable_nodes
    &&& d.hard_link_entries == index.hard_link_entries
}

/// `outcome` is the scan of the records in `index`.
pub open spec fn is_mft_outcome<
    J: Fn(&str) -> bool,
    L: Fn(&str) -> bool,
    T: Fn(&str) -> Option<u64>,
>(
    index: MftIndexView,
    excluded: Seq<Seq<char>>,
    drive: char,
    cfg: ConfigView,
    migs: Seq<MigrationView>,
    env: EnvVarsView,
    probes: LinkProbes<J, L, T>,
    scan_id: Seq<char>,
    store: TreeStoreView,
    diagnostics: ScanDiagnostics,
) -> bool {
    exists|h: GraphView|
        {
            &&& #[trigger] annotated_by(
                graph_of(index.records, excluded, drive, env),
                h,
                cfg,
                migs,
                env,
                probes,
            )
            &&& shows(h, store)
            &&& mft_diagnostics(index, h, diagnostics)
            &&& store.scan_id == scan_id
            &&& store.source == ScanSource::Mft
            &&& store.root_file_summary == root_summary(h, index.skipped_records as u64)
        }
}

/// The totals of the root directory of a scan that walked the file system:
/// nothing is known of the file system's own records.
pub open spec fn walked_summary(g: GraphView) -> RootFileSummary {
    let s = root_summary(g, 0);
    RootFileSummary {
        direct_file_size_bytes: s.direct_file_size_bytes,
        direct_file_count: s.direct_file_count,
        system_metadata_size_bytes: None,
        total_known_size_bytes: s.direct_file_size_bytes,
        incomplete: true,
    }
}

/// `outcome` is the scan of the graph `g` that was walked.
pub open spec fn is_walked_outcome<
    J: Fn(&str) -> bool,
    L: Fn(&str) -> bool,
    T: Fn(&str) -> Option<u64>,
>(
    g: GraphView,
    scanned_files: u64,
    entry_errors: u64,
    cfg: ConfigView,
    migs: Seq<MigrationView>,
    env: EnvVarsView,
    probes: LinkProbes<J, L, T>,
    scan_id: Seq<char>,
    store: TreeStoreView,
    d: ScanDiagnostics,
) -> bool {
    exists|h: GraphView|
        {
            &&& #[trigger] annotated_by(g, h, cfg, migs, env, probes)
            &&& shows(h, store)
            &&& d.scanned_records == 0
            &&& d.scanned_dirs == h.nodes.len()
            &&& d.scanned_files == scanned_files
            &&& d.skipped_records == entry_errors
            &&& d.orphan_entries == h.diagnostics.unreachable_nodes
            &&& d.hard_link_entries == 0
            &&& store.scan_id == scan_id
            &&& store.source == ScanSource::Filesystem
            &&& store.root_file_summary == walked_summary(h)
        }
}

/// How many directories the graph has.
fn count_dirs(graph: &DirectoryGraph) -> (r: u64)
    requires
        graph.wf(),
    ensures
        r == graph@.nodes.len(),
{
    proof {
        assert(graph@.nodes.dom() =~= graph.nodes@.dom());
    }
    graph.nodes.len() as u64
}

/// The engine that is used in production.
pub struct RealScanEngine;

impl RealScanEngine {
    /// Makes the tree from an index.
    pub fn mft_outcome<
        J: Fn(&str) -> bool,
        L: Fn(&str) -> bool,
        T: Fn(&str) -> Option<u64>,
        P: Fn(ScanProgressEvent),
    >(
        &self,
        index: &MftIndex,
        record_count: u64,
        root_drive: char,
        cfg: &Config,
        migrations: &[Migration],
        excluded_paths: &[String],
        env: &EnvVars,
        probes: &LinkProbes<J, L, T>,
        on_progress: &P,
        scan_id: String,
    ) -> (r: ScanOutcome)
        requires
            index.wf(),
            probes.ready(),
            forall|e: ScanProgressEvent| call_requires(*on_progress, (e,)),
        ensures
            r.store.wf(),
            is_mft_outcome(
                index@,
                strings_view(excluded_paths@),
                root_drive,
                cfg@,
                migrations_view(migrations@),
                env@,
                *probes,
                scan_id@,
                r.store@,
                r.diagnostics,
            ),
    {
        on_progress(
            ScanProgressEvent {
                scanned_records: index.scanned_records,
                scanned_dirs: 0,
                scanned_files: index.scanned_files,
                estimated_record_slots: record_count,
                current_phase: CurrentPhase::Aggregating,
            },
        );
        let mut graph = build_graph(index, excluded_paths, root_drive, env);
        on_progress(
            ScanProgressEvent {
                scanned_records: index.scanned_records,
                scanned_dirs: count_dirs(&graph),
                scanned_files: index.scanned_files,
                estimated_record_slots: record_count,
                current_phase: CurrentPhase::Annotating,
            },
        );
        let summary = annotate_graph_with_skipped_records(
            &mut graph,
            cfg,
            migrations,
            env,
            probes,
            index.skipped_records,
        );
        let store = materialize(&graph, summary, ScanSource::Mft, scan_id);
        let diagnostics = ScanDiagnostics {
            scanned_records: index.scanned_records,
            scanned_dirs: count_dirs(&graph),
            scanned_files: index.scanned_files,
            skipped_records: index.skipped_records,
            orphan_entries: graph.orphan_count(),
            hard_link_entries: index.hard_link_entries,
        };
        ScanOutcome { store, diagnostics }
    }

    /// Scans the MFT of an opened volume.
    pub fn mft_scan<
        R: RecordReader + ?Sized,
        C: Fn() -> bool,
        J: Fn(&str) -> bool,
        L: Fn(&str) -> bool,
        T: Fn(&str) -> Option<u64>,
        P: Fn(ScanProgressEvent),
    >(
        &self,
        reader: &R,
        volume_data: VolumeData,
        root_drive: char,
        cfg: &Config,
        migrations: &[Migration],
        excluded_paths: &[String],
        env: &EnvVars,
        probes: &LinkProbes<J, L, T>,
        cancel: &C,
        on_progress: &P,
        scan_id: String,
    ) -> (r: Result<ScanOutcome, ScanDriveError>)
        requires
            probes.ready(),
            call_requires(*cancel, ()),
            forall|e: ScanProgressEvent| call_requires(*on_progress, (e,)),
        ensures
            match geometry_fault(volume_data) {
                Some(fault) => r is Err && r->Err_0 == mft_scan_error(fault),
                None => match r {
                    Ok(outcome) => outcome.store.wf() && exists|slots: Seq<Slot>|
                        slots_read(reader, volume_data, slots, slots.len())
                            && #[trigger] enumeration(slots) is Ok && is_mft_outcome(
                            enumeration(slots)->Ok_0,
                            strings_view(excluded_paths@),
                            root_drive,
                            cfg@,
                            migrations_view(migrations@),
                            env@,
                            *probes,
                            scan_id@,
                            outcome.store@,
                            outcome.diagnostics,
                        ),
                    Err(e) => if e is Cancelled {
                        slot_count(volume_data) > 0 && call_ensures(*cancel, (), true)
                    } else {
                        exists|slots: Seq<Slot>, n: nat, fault: MftError|
                            slots_read(reader, volume_data, slots, n) && #[trigger] fails_by(
                                slots,
                                n,
                                fault,
                            ) && e == mft_scan_error(fault)
                    },
                },
            },
            geometry_fault(volume_data) is None && slot_count(volume_data) > 0 && !call_ensures(
                *cancel,
                (),
                false,
            ) ==> r is Err && r->Err_0 is Cancelled,
    {
        let record_count: u64 = if volume_data.bytes_per_file_record_segment == 0 {
            0
        } else {
            volume_data.mft_valid_data_length / volume_data.bytes_per_file_record_segment as u64
        };
        let report = |scanned: u64|
            requires
                forall|e: ScanProgressEvent| call_requires(*on_progress, (e,)),
            {
                on_progress(
                    ScanProgressEvent {
                        scanned_records: scanned,
                        scanned_dirs: 0,
                        scanned_files: 0,
                        estimated_record_slots: record_count,
                        current_phase: CurrentPhase::ReadingMft,
                    },
                )
            };
        let index: MftIndex = match enumerate_mft(reader, volume_data, cancel, &report) {
            Ok(index) => index,
            Err(e) => {
                return Err(map_mft_error(e));
            },
        };
        Ok(
            self.mft_outcome(
                &index,
                record_count,
                root_drive,
                cfg,
                migrations,
                excluded_paths,
                env,
                probes,
                on_progress,
                scan_id,
            ),
        )
    }

    /// Makes the tree from a graph that was walked.
    pub fn fs_outcome<
        J: Fn(&str) -> bool,
        L: Fn(&str) -> bool,
        T: Fn(&str) -> Option<u64>,
        P: Fn(ScanProgressEvent),
    >(
        &self,
        walked: (DirectoryGraph, u64, u64),
        cfg: &Config,
        migrations: &[Migration],
        env: &EnvVars,
        probes: &LinkProbes<J, L, T>,
        on_progress: &P,
        scan_id: String,
    ) -> (r: ScanOutcome)
        requires
            walked.0.wf(),
            probes.ready(),
            forall|e: ScanProgressEvent| call_requires(*on_progress, (e,)),
        ensures
            r.store.wf(),
            is_walked_outcome(
                walked.0@,
                walked.1,
                walked.2,
                cfg@,
                migrations_view(migrations@),
                env@,
                *probes,
                scan_id@,
                r.store@,
                r.diagnostics,
            ),
    {
        let (mut graph, scanned_files, entry_errors) = walked;
        on_progress(
            ScanProgressEvent {
                scanned_records: 0,
                scanned_dirs: count_dirs(&graph),
                scanned_files,
                estimated_record_slots: 0,
                current_phase: CurrentPhase::Annotating,
            },
        );
        let known = annotate_graph_with_skipped_records(
            &mut graph,
            cfg,
            migrations,
            env,
            probes,
            0,
        );
        let summary = RootFileSummary {
            direct_file_size_bytes: known.direct_file_size_bytes,
            direct_file_count: known.direct_file_count,
            system_metadata_size_bytes: None,
            total_known_size_bytes: known.direct_file_size_bytes,
            incomplete: true,
        };
        let store = materialize(&graph, summary, ScanSource::Filesystem, scan_id);
        let diagnostics = ScanDiagnostics {
            scanned_records: 0,
            scanned_dirs: count_dirs(&graph),
            scanned_files,
            skipped_records: entry_errors,
            orphan_entries: graph.orphan_count(),
            hard_link_entries: 0,
        };
        ScanOutcome { store, diagnostics }
    }

    /// Ends a walk through the file system. A walk that was cancelled gives no
    /// tree, however far it had come.
    pub fn fs_scan<
        J: Fn(&str) -> bool,
        L: Fn(&str) -> bool,
        T: Fn(&str) -> Option<u64>,
        P: Fn(ScanProgressEvent),
    >(
        &self,
        walk: FsScan,
        cancelled: bool,
        cfg: &Config,
        migrations: &[Migration],
        excluded_paths: &[String],
        env: &EnvVars,
        probes: &LinkProbes<J, L, T>,
        on_progress: &P,
        scan_id: String,
    ) -> (r: Result<ScanOutcome, ScanDriveError>)
        requires
            walk.wf(),
            probes.ready(),
            forall|e: ScanProgressEvent| call_requires(*on_progress, (e,)),
        ensures
            if cancelled {
                r is Err && r->Err_0 is Cancelled
            } else {
                &&& r is Ok
                &&& r->Ok_0.store.wf()
                &&& exists|children: Map<FileRef, Seq<FileRef>>| #[trigger]
                    names_sorted(walk@.graph, children) && is_walked_outcome(
                        aggregated(
                            GraphView { children, ..walk@.graph },
                            normal_list(
                                strings_view(excluded_paths@),
                                env@,
                                excluded_paths@.len(),
                            ),
                        ),
                        walk@.scanned_files,
                        walk@.entry_errors,
                        cfg@,
                        migrations_view(migrations@),
                        env@,
                        *probes,
                        scan_id@,
                        r->Ok_0.store@,
                        r->Ok_0.diagnostics,
                    )
            },
    {
        if cancelled {
            return Err(ScanDriveError::Cancelled);
        }
        let excluded: Vec<String> = normalize_excluded(excluded_paths, env);
        let walked = walk.finish(excluded.as_slice());
        Ok(self.fs_outcome(walked, cfg, migrations, env, probes, on_progress, scan_id))
    }

    /// How a drive is scanned: by its MFT, unless a walk is asked for.
    pub fn route(mode: ScanMode) -> (r: ScanSource)
        ensures
            r == if mode == ScanMode::Filesystem {
                ScanSource::Filesystem
            } else {
                ScanSource::Mft
            },
    {
        match mode {
            ScanMode::Auto | ScanMode::Mft => ScanSource::Mft,
            ScanMode::Filesystem => ScanSource::Filesystem,
        }
    }
}

// ---------------------------------------------------------------------------
// Laws
// ---------------------------------------------------------------------------

/// Scans that start at different times have different ids: an answer about one
/// is never taken for an answer about the other.
pub proof fn law_scan_ids_differ(a: u128, b: u128)
    requires
        a != b,
    ensures
        decimal(a as nat) != decimal(b as nat),
{
    if decimal(a as nat) == decimal(b as nat) {
        lemma_decimal_injective(a as nat, b as nat);
    }
}

} // verus!
