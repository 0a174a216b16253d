//! The values that the parts of the library exchange.

use vstd::prelude::*;
use vstd::string::*;

verus! {

/// The text of an optional string.
pub open spec fn opt_view(s: Option<String>) -> Option<Seq<char>> {
    match s {
        Some(t) => Some(t@),
        None => None,
    }
}

/// The texts of a sequence of strings.
pub open spec fn strings_view(s: Seq<String>) -> Seq<Seq<char>> {
    Seq::new(s.len(), |i: int| s[i]@)
}

/// A copy of an optional string.
pub fn copy_opt(s: &Option<String>) -> (r: Option<String>)
    ensures
        opt_view(r) == opt_view(*s),
{
    match s {
        Some(t) => Some(t.clone()),
        None => None,
    }
}

/// A copy of a vector of strings.
pub fn copy_strings(s: &Vec<String>) -> (r: Vec<String>)
    ensures
        strings_view(r@) == strings_view(s@),
{
    let mut out: Vec<String> = Vec::new();
    let mut i: usize = 0;
    while i < s.len()
        invariant
            i <= s@.len(),
            out@.len() == i,
            forall|j: int| 0 <= j < i ==> (#[trigger] out@[j])@ == s@[j]@,
        decreases s@.len() - i,
    {
        out.push(s[i].clone());
        i += 1;
    }
    assert(strings_view(out@) =~= strings_view(s@));
    out
}

// ---------------------------------------------------------------------------
// Configuration
// ---------------------------------------------------------------------------

/// What kind of data a preset covers.
#[derive(Debug, Clone, Copy, PartialEq, Eq, Structural)]
pub enum PresetCategory {
    Communication,
    GameLibrary,
    DevCache,
    Ide,
    Container,
    AppInstall,
    Custom,
}

/// A known directory that can be moved off the system drive.
#[derive(Debug, Clone)]
pub struct Preset {
    pub id: String,
    pub name: String,
    pub category: PresetCategory,
    /// Paths, which may hold environment variables in percent signs.
    pub match_paths: Vec<String>,
    /// Names of processes that use the directory.
    pub match_processes: Vec<String>,
    pub auto_migrate: bool,
    pub target_subdir: String,
}

/// Model of a [`Preset`].
pub struct PresetView {
    pub id: Seq<char>,
    pub name: Seq<char>,
    pub category: PresetCategory,
    pub match_paths: Seq<Seq<char>>,
    pub match_processes: Seq<Seq<char>>,
    pub auto_migrate: bool,
    pub target_subdir: Seq<char>,
}

impl View for Preset {
    type V = PresetView;

    open spec fn view(&self) -> PresetView {
        PresetView {
            id: self.id@,
            name: self.name@,
            category: self.category,
            match_paths: strings_view(self.match_paths@),
            match_processes: strings_view(self.match_processes@),
            auto_migrate: self.auto_migrate,
            target_subdir: self.target_subdir@,
        }
    }
}

impl Preset {
    /// A copy of this value.
    pub fn copy(&self) -> (r: Self)
        ensures
            r@ == self@,
    {
        Preset {
            id: self.id.clone(),
            name: self.name.clone(),
            category: self.category,
            match_paths: copy_strings(&self.match_paths),
            match_processes: copy_strings(&self.match_processes),
            auto_migrate: self.auto_migrate,
            target_subdir: self.target_subdir.clone(),
        }
    }
}

/// The models of a sequence of presets.
pub open spec fn presets_view(s: Seq<Preset>) -> Seq<PresetView> {
    Seq::new(s.len(), |i: int| s[i]@)
}

/// A copy of a vector of presets.
pub fn copy_presets(s: &Vec<Preset>) -> (r: Vec<Preset>)
    ensures
        presets_view(r@) == presets_view(s@),
{
    let mut out: Vec<Preset> = Vec::new();
    let mut i: usize = 0;
    while i < s.len()
        invariant
            i <= s@.len(),
            out@.len() == i,
            forall|j: int| 0 <= j < i ==> (#[trigger] out@[j])@ == s@[j]@,
        decreases s@.len() - i,
    {
        out.push(s[i].copy());
        i += 1;
    }
    assert(presets_view(out@) =~= presets_view(s@));
    out
}

/// What a scan shows and what it leaves out.
#[derive(Debug, Clone)]
pub struct ScanConfig {
    pub min_size_mb: u64,
    pub exclude_paths: Vec<String>,
}

/// Model of a [`ScanConfig`].
pub struct ScanConfigView {
    pub min_size_mb: u64,
    pub exclude_paths: Seq<Seq<char>>,
}

impl View for ScanConfig {
    type V = ScanConfigView;

    open spec fn view(&self) -> ScanConfigView {
        ScanConfigView {
            min_size_mb: self.min_size_mb,
            exclude_paths: strings_view(self.exclude_paths@),
        }
    }
}

impl ScanConfig {
    /// A copy of this value.
    pub fn copy(&self) -> (r: Self)
        ensures
            r@ == self@,
    {
        ScanConfig {
            min_size_mb: self.min_size_mb,
            exclude_paths: copy_strings(&self.exclude_paths),
        }
    }
}

/// The user's settings.
#[derive(Debug, Clone)]
pub struct Config {
    pub schema_version: u32,
    /// Directory that receives migrated data.
    pub repository: String,
    pub scan: ScanConfig,
    pub presets: Vec<Preset>,
}

/// Model of a [`Config`].
pub struct ConfigView {
    pub schema_version: u32,
    pub repository: Seq<char>,
    pub scan: ScanConfigView,
    pub presets: Seq<PresetView>,
}

impl View for Config {
    type V = ConfigView;

    open spec fn view(&self) -> ConfigView {
        ConfigView {
            schema_version: self.schema_version,
            repository: self.repository@,
            scan: self.scan@,
            presets: presets_view(self.presets@),
        }
    }
}

impl Config {
    /// A copy of this value.
    pub fn copy(&self) -> (r: Self)
        ensures
            r@ == self@,
    {
        Config {
            schema_version: self.schema_version,
            repository: self.repository.clone(),
            scan: self.scan.copy(),
            presets: copy_presets(&self.presets),
        }
    }
}

// ---------------------------------------------------------------------------
// Migrations
// ---------------------------------------------------------------------------

/// Where a migration stands.
#[derive(Debug, Clone, Copy, PartialEq, Eq, Structural)]
pub enum MigrationStatus {
    /// The link is in place and the old data is gone.
    Active,
    /// The link is in place; the old data is still to be removed.
    OldPendingDelete,
    /// The data was restored; the migrated copy is still to be removed.
    TargetPendingDelete,
    /// Someone has to look at it.
    PendingManualConfirm,
}

/// The record of one migration.
#[derive(Debug, Clone)]
pub struct Migration {
    pub id: String,
    pub schema_version: u32,
    pub source: String,
    pub target: String,
    pub old_path: String,
    pub preset: Option<String>,
    pub created_at: String,
    pub status: MigrationStatus,
    pub source_volume_serial: String,
    pub target_volume_serial: String,
    pub recycle_bin_ref: String,
    pub pending_cleanup: Option<String>,
}

/// Model of a [`Migration`].
pub struct MigrationView {
    pub id: Seq<char>,
    pub schema_version: u32,
    pub source: Seq<char>,
    pub target: Seq<char>,
    pub old_path: Seq<char>,
    pub preset: Option<Seq<char>>,
    pub created_at: Seq<char>,
    pub status: MigrationStatus,
    pub source_volume_serial: Seq<char>,
    pub target_volume_serial: Seq<char>,
    pub recycle_bin_ref: Seq<char>,
    pub pending_cleanup: Option<Seq<char>>,
}

impl View for Migration {
    type V = MigrationView;

    open spec fn view(&self) -> MigrationView {
        MigrationView {
            id: self.id@,
            schema_version: self.schema_version,
            source: self.source@,
            target: self.target@,
            old_path: self.old_path@,
            preset: opt_view(self.preset),
            created_at: self.created_at@,
            status: self.status,
            source_volume_serial: self.source_volume_serial@,
            target_volume_serial: self.target_volume_serial@,
            recycle_bin_ref: self.recycle_bin_ref@,
            pending_cleanup: opt_view(self.pending_cleanup),
        }
    }
}

impl Migration {
    /// A copy of this value.
    pub fn copy(&self) -> (r: Self)
        ensures
            r@ == self@,
    {
        Migration {
            id: self.id.clone(),
            schema_version: self.schema_version,
            source: self.source.clone(),
            target: self.target.clone(),
            old_path: self.old_path.clone(),
            preset: copy_opt(&self.preset),
            created_at: self.created_at.clone(),
            status: self.status,
            source_volume_serial: self.source_volume_serial.clone(),
            target_volume_serial: self.target_volume_serial.clone(),
            recycle_bin_ref: self.recycle_bin_ref.clone(),
            pending_cleanup: copy_opt(&self.pending_cleanup),
        }
    }
}

/// The models of a sequence of migrations.
pub open spec fn migrations_view(s: Seq<Migration>) -> Seq<MigrationView> {
    Seq::new(s.len(), |i: int| s[i]@)
}

/// What an operation on a migration did to the source directory, and why.
#[derive(Debug, Clone)]
pub struct OperationOutcome {
    /// The source path no longer holds what it held before.
    pub source_changed: bool,
    pub reason: String,
}

impl OperationOutcome {
    /// The source path holds something else now.
    pub fn changed(reason: &str) -> (r: Self)
        ensures
            r.source_changed,
            r.reason@ == reason@,
    {
        OperationOutcome { source_changed: true, reason: String::from_str(reason) }
    }

    /// The source path holds what it held.
    pub fn unchanged(reason: &str) -> (r: Self)
        ensures
            !r.source_changed,
            r.reason@ == reason@,
    {
        OperationOutcome { source_changed: false, reason: String::from_str(reason) }
    }
}

// ---------------------------------------------------------------------------
// Scans
// ---------------------------------------------------------------------------

/// How a tree was obtained.
#[derive(Debug, Clone, Copy, PartialEq, Eq, Structural)]
pub enum ScanSource {
    Mft,
    Filesystem,
}

/// How a scan is asked for.
#[derive(Debug, Clone, Copy, PartialEq, Eq, Structural)]
pub enum ScanMode {
    Auto,
    Mft,
    Filesystem,
}

/// Why the MFT could not be scanned.
#[derive(Debug, Clone)]
pub enum FastScanFailure {
    UnsupportedFilesystem { actual: String },
    UnsupportedNtfsVersion { major: u16, minor: u16 },
    InvalidVolumeData,
    RootRecordMissing,
    ExcessiveRecordErrors { skipped: u64, scanned: u64 },
    Io { code: Option<i32> },
}

/// What a directory has to do with migrations and links.
#[derive(Debug, Clone, Copy, PartialEq, Eq, Structural)]
pub enum ScanItemStatus {
    Migrated,
    MigrationPending,
    LinkBroken,
    /// A link that this tool did not make.
    ExistingLink,
    ContainsMigrated,
    ContainsLink,
}

/// Whether a directory could be read.
#[derive(Debug, Clone, Copy, PartialEq, Eq, Structural)]
pub enum AccessState {
    Unknown,
    Accessible,
    Inaccessible,
}

/// Totals of the files that lie directly in the root directory.
#[derive(Debug, Clone, Copy, PartialEq, Eq, Structural)]
pub struct RootFileSummary {
    pub direct_file_size_bytes: u64,
    pub direct_file_count: u64,
    /// Size of the file system's own records, where it is known.
    pub system_metadata_size_bytes: Option<u64>,
    pub total_known_size_bytes: u64,
    pub incomplete: bool,
}

/// What was counted during a scan.
#[derive(Debug, Clone, Copy, PartialEq, Eq, Structural)]
pub struct ScanDiagnostics {
    pub scanned_records: u64,
    pub scanned_dirs: u64,
    pub scanned_files: u64,
    pub skipped_records: u64,
    pub orphan_entries: u64,
    pub hard_link_entries: u64,
}

/// A directory as it is shown.
#[derive(Debug, Clone)]
pub struct TreeNode {
    pub path: String,
    pub display_name: String,
    pub size_bytes: u64,
    pub linked_target_size_bytes: Option<u64>,
    pub file_count: u64,
    pub dir_count: u64,
    pub depth: u32,
    pub is_reparse: bool,
    pub reparse_tag: Option<u32>,
    pub is_junction: bool,
    pub access_state: AccessState,
    pub matched_preset: Option<String>,
    pub category: Option<PresetCategory>,
    pub auto_migrate: bool,
    pub scan_status: Option<ScanItemStatus>,
    pub migration_id: Option<String>,
    /// Children that are shown.
    pub child_count: u32,
    /// Children that are too small to be shown.
    pub filtered_child_count: u32,
}

/// Model of a [`TreeNode`].
pub struct TreeNodeView {
    pub path: Seq<char>,
    pub display_name: Seq<char>,
    pub size_bytes: u64,
    pub linked_target_size_bytes: Option<u64>,
    pub file_count: u64,
    pub dir_count: u64,
    pub depth: u32,
    pub is_reparse: bool,
    pub reparse_tag: Option<u32>,
    pub is_junction: bool,
    pub access_state: AccessState,
    pub matched_preset: Option<Seq<char>>,
    pub category: Option<PresetCategory>,
    pub auto_migrate: bool,
    pub scan_status: Option<ScanItemStatus>,
    pub migration_id: Option<Seq<char>>,
    pub child_count: u32,
    pub filtered_child_count: u32,
}

impl View for TreeNode {
    type V = TreeNodeView;

    open spec fn view(&self) -> TreeNodeView {
        TreeNodeView {
            path: self.path@,
            display_name: self.display_name@,
            size_bytes: self.size_bytes,
            linked_target_size_bytes: self.linked_target_size_bytes,
            file_count: self.file_count,
            dir_count: self.dir_count,
            depth: self.depth,
            is_reparse: self.is_reparse,
            reparse_tag: self.reparse_tag,
            is_junction: self.is_junction,
            access_state: self.access_state,
            matched_preset: opt_view(self.matched_preset),
            category: self.category,
            auto_migrate: self.auto_migrate,
            scan_status: self.scan_status,
            migration_id: opt_view(self.migration_id),
            child_count: self.child_count,
            filtered_child_count: self.filtered_child_count,
        }
    }
}

impl TreeNode {
    /// A copy of this value.
    pub fn copy(&self) -> (r: Self)
        ensures
            r@ == self@,
    {
        TreeNode {
            path: self.path.clone(),
            display_name: self.display_name.clone(),
            size_bytes: self.size_bytes,
            linked_target_size_bytes: self.linked_target_size_bytes,
            file_count: self.file_count,
            dir_count: self.dir_count,
            depth: self.depth,
            is_reparse: self.is_reparse,
            reparse_tag: self.reparse_tag,
            is_junction: self.is_junction,
            access_state: self.access_state,
            matched_preset: copy_opt(&self.matched_preset),
            category: self.category,
            auto_migrate: self.auto_migrate,
            scan_status: self.scan_status,
            migration_id: copy_opt(&self.migration_id),
            child_count: self.child_count,
            filtered_child_count: self.filtered_child_count,
        }
    }
}

/// The models of a sequence of nodes.
pub open spec fn tree_nodes_view(s: Seq<TreeNode>) -> Seq<TreeNodeView> {
    Seq::new(s.len(), |i: int| s[i]@)
}

/// One page of the children of a directory.
#[derive(Debug, Clone)]
pub struct ChildPage {
    pub items: Vec<TreeNode>,
    pub total: u32,
    pub next_offset: Option<u32>,
}

/// Model of a [`ChildPage`].
pub struct ChildPageView {
    pub items: Seq<TreeNodeView>,
    pub total: u32,
    pub next_offset: Option<u32>,
}

impl View for ChildPage {
    type V = ChildPageView;

    open spec fn view(&self) -> ChildPageView {
        ChildPageView {
            items: tree_nodes_view(self.items@),
            total: self.total,
            next_offset: self.next_offset,
        }
    }
}

/// One level on the way down to a directory.
#[derive(Debug, Clone)]
pub struct RevealLevel {
    pub parent_path: String,
    pub page: ChildPage,
}

/// Model of a [`RevealLevel`].
pub struct RevealLevelView {
    pub parent_path: Seq<char>,
    pub page: ChildPageView,
}

impl View for RevealLevel {
    type V = RevealLevelView;

    open spec fn view(&self) -> RevealLevelView {
        RevealLevelView {
            parent_path: self.parent_path@,
            page: self.page@,
        }
    }
}

/// A directory in a flat listing.
#[derive(Debug, Clone)]
pub struct ScanItem {
    pub path: String,
    pub display_name: String,
    pub size_bytes: u64,
    pub matched_preset: Option<String>,
    pub category: Option<PresetCategory>,
    pub auto_migrate: bool,
    pub is_junction: bool,
    pub inaccessible: bool,
    pub scan_status: Option<ScanItemStatus>,
    pub migration_id: Option<String>,
}

/// Model of a [`ScanItem`].
pub struct ScanItemView {
    pub path: Seq<char>,
    pub display_name: Seq<char>,
    pub size_bytes: u64,
    pub matched_preset: Option<Seq<char>>,
    pub category: Option<PresetCategory>,
    pub auto_migrate: bool,
    pub is_junction: bool,
    pub inaccessible: bool,
    pub scan_status: Option<ScanItemStatus>,
    pub migration_id: Option<Seq<char>>,
}

impl View for ScanItem {
    type V = ScanItemView;

    open spec fn view(&self) -> ScanItemView {
        ScanItemView {
            path: self.path@,
            display_name: self.display_name@,
            size_bytes: self.size_bytes,
            matched_preset: opt_view(self.matched_preset),
            category: self.category,
            auto_migrate: self.auto_migrate,
            is_junction: self.is_junction,
            inaccessible: self.inaccessible,
            scan_status: self.scan_status,
            migration_id: opt_view(self.migration_id),
        }
    }
}

/// A finished scan as it is shown first.
#[derive(Debug, Clone)]
pub struct ScanSnapshot {
    pub scan_id: String,
    pub source: ScanSource,
    pub roots: Vec<TreeNode>,
    pub filtered_root_count: u32,
    pub root_file_summary: RootFileSummary,
    pub diagnostics: ScanDiagnostics,
}

/// The answer to a request for a scan.
#[derive(Debug, Clone)]
pub enum ScanDriveResult {
    NeedsElevation,
    FastScanUnavailable { reason: FastScanFailure },
    Complete { snapshot: ScanSnapshot },
}

/// The phase that a scan is in.
#[derive(Debug, Clone, Copy, PartialEq, Eq, Structural)]
pub enum CurrentPhase {
    ReadingMft,
    Aggregating,
    Annotating,
    WalkingFs,
}

/// How far a scan has come.
#[derive(Debug, Clone, Copy, PartialEq, Eq, Structural)]
pub struct ScanProgressEvent {
    pub scanned_records: u64,
    pub scanned_dirs: u64,
    pub scanned_files: u64,
    pub estimated_record_slots: u64,
    pub current_phase: CurrentPhase,
}

// ---------------------------------------------------------------------------
// Journal, history, progress
// ---------------------------------------------------------------------------

/// One line of the operation journal.
#[derive(Debug, Clone)]
pub struct JournalEntry {
    pub task_id: String,
    pub op: String,
    pub migration_id: String,
    pub stage: String,
    pub src: String,
    pub dst: String,
    pub tmp: String,
    pub old_path: String,
    pub time: String,
    /// How the task ended, on the line that ends it.
    pub final_mark: Option<String>,
}

/// Model of a [`JournalEntry`].
pub struct JournalEntryView {
    pub task_id: Seq<char>,
    pub op: Seq<char>,
    pub migration_id: Seq<char>,
    pub stage: Seq<char>,
    pub src: Seq<char>,
    pub dst: Seq<char>,
    pub tmp: Seq<char>,
    pub old_path: Seq<char>,
    pub time: Seq<char>,
    pub final_mark: Option<Seq<char>>,
}

impl View for JournalEntry {
    type V = JournalEntryView;

    open spec fn view(&self) -> JournalEntryView {
        JournalEntryView {
            task_id: self.task_id@,
            op: self.op@,
            migration_id: self.migration_id@,
            stage: self.stage@,
            src: self.src@,
            dst: self.dst@,
            tmp: self.tmp@,
            old_path: self.old_path@,
            time: self.time@,
            final_mark: opt_view(self.final_mark),
        }
    }
}

impl JournalEntry {
    /// A copy of this value.
    pub fn copy(&self) -> (r: Self)
        ensures
            r@ == self@,
    {
        JournalEntry {
            task_id: self.task_id.clone(),
            op: self.op.clone(),
            migration_id: self.migration_id.clone(),
            stage: self.stage.clone(),
            src: self.src.clone(),
            dst: self.dst.clone(),
            tmp: self.tmp.clone(),
            old_path: self.old_path.clone(),
            time: self.time.clone(),
            final_mark: copy_opt(&self.final_mark),
        }
    }
}

/// The models of a sequence of journal lines.
pub open spec fn journal_view(s: Seq<JournalEntry>) -> Seq<JournalEntryView> {
    Seq::new(s.len(), |i: int| s[i]@)
}

/// One finished operation.
#[derive(Debug, Clone)]
pub struct HistoryEntry {
    pub op: String,
    pub id: String,
    pub src: String,
    pub dst: String,
    pub result: String,
    pub time: String,
    pub duration_sec: u64,
}

/// Model of a [`HistoryEntry`].
pub struct HistoryEntryView {
    pub op: Seq<char>,
    pub id: Seq<char>,
    pub src: Seq<char>,
    pub dst: Seq<char>,
    pub result: Seq<char>,
    pub time: Seq<char>,
    pub duration_sec: u64,
}

impl View for HistoryEntry {
    type V = HistoryEntryView;

    open spec fn view(&self) -> HistoryEntryView {
        HistoryEntryView {
            op: self.op@,
            id: self.id@,
            src: self.src@,
            dst: self.dst@,
            result: self.result@,
            time: self.time@,
            duration_sec: self.duration_sec,
        }
    }
}

impl HistoryEntry {
    /// A copy of this value.
    pub fn copy(&self) -> (r: Self)
        ensures
            r@ == self@,
    {
        HistoryEntry {
            op: self.op.clone(),
            id: self.id.clone(),
            src: self.src.clone(),
            dst: self.dst.clone(),
            result: self.result.clone(),
            time: self.time.clone(),
            duration_sec: self.duration_sec,
        }
    }
}

/// The models of a sequence of history entries.
pub open spec fn history_view(s: Seq<HistoryEntry>) -> Seq<HistoryEntryView> {
    Seq::new(s.len(), |i: int| s[i]@)
}

/// How far a copy has come.
#[derive(Debug, Clone)]
pub struct TransferProgress {
    pub phase: String,
    pub completed_bytes: u64,
    pub total_bytes: Option<u64>,
    pub completed_files: u64,
    pub total_files: Option<u64>,
    pub current_path: Option<String>,
}

/// Model of a [`TransferProgress`].
pub struct TransferProgressView {
    pub phase: Seq<char>,
    pub completed_bytes: u64,
    pub total_bytes: Option<u64>,
    pub completed_files: u64,
    pub total_files: Option<u64>,
    pub current_path: Option<Seq<char>>,
}

impl View for TransferProgress {
    type V = TransferProgressView;

    open spec fn view(&self) -> TransferProgressView {
        TransferProgressView {
            phase: self.phase@,
            completed_bytes: self.completed_bytes,
            total_bytes: self.total_bytes,
            completed_files: self.completed_files,
            total_files: self.total_files,
            current_path: opt_view(self.current_path),
        }
    }
}

/// How far a task has come.
#[derive(Debug, Clone)]
pub struct ProgressEvent {
    pub task_id: String,
    pub stage: String,
    pub percent: u8,
    pub message: String,
    pub transfer: Option<TransferProgress>,
}

/// Model of a [`ProgressEvent`].
pub struct ProgressEventView {
    pub task_id: Seq<char>,
    pub stage: Seq<char>,
    pub percent: u8,
    pub message: Seq<char>,
    pub transfer: Option<TransferProgressView>,
}

impl View for ProgressEvent {
    type V = ProgressEventView;

    open spec fn view(&self) -> ProgressEventView {
        ProgressEventView {
            task_id: self.task_id@,
            stage: self.stage@,
            percent: self.percent,
            message: self.message@,
            transfer: match self.transfer {
                Some(t) => Some(t@),
                None => None,
            },
        }
    }
}

impl ProgressEvent {
    /// An event without details of a transfer.
    pub fn new(task_id: &str, stage: &str, percent: u8, message: &str) -> (r: Self)
        ensures
            r@ == (ProgressEventView {
                task_id: task_id@,
                stage: stage@,
                percent,
                message: message@,
                transfer: None,
            }),
    {
        ProgressEvent {
            task_id: String::from_str(task_id),
            stage: String::from_str(stage),
            percent,
            message: String::from_str(message),
            transfer: None,
        }
    }
}

/// The announcement that a scan no longer describes the drive.
#[derive(Debug, Clone)]
pub struct ScanInvalidatedEvent {
    pub reason: String,
    /// A new scan should be started right away.
    pub auto_rescan: bool,
}

/// What the checks before a migration found.
#[derive(Debug, Clone)]
pub struct PrecheckReport {
    pub ok: bool,
    pub warnings: Vec<String>,
    pub blockers: Vec<String>,
    pub source_size_bytes: u64,
    pub target_free_bytes: u64,
}

} // verus!
