//! What the machines ask for, and what they are told.

use crate::error::AppError;
use crate::file_ops::{CopyOutcome, CopyPhase, CopyProgress, Manifest};
use crate::models::{
    HistoryEntry, HistoryEntryView, MigrationStatus, ProgressEvent, ProgressEventView,
    TransferProgress, TransferProgressView,
};
use crate::text::{replace_char, replaced_char};
use crate::vss::{shadow_of, shadow_path};
use vstd::prelude::*;
use vstd::string::*;

verus! {

/// A directory that takes part in an operation.
#[derive(Debug, Clone, Copy, PartialEq, Eq, Structural)]
pub enum Place {
    /// The directory that the user sees.
    Source,
    /// Where the data to copy is read: the data itself, or its place inside a
    /// shadow copy.
    ReadRoot,
    /// The data in the repository.
    Target,
    /// The copy before it is complete.
    Tmp,
    /// The source after it was renamed.
    Old,
}

/// Something that the caller has to do.
#[derive(Debug, Clone, Copy, PartialEq, Eq, Structural)]
pub enum Action {
    /// Say whether the place is a reparse point.
    IsReparsePoint(Place),
    /// Begin the task in the journal.
    JournalBegin,
    /// Note a stage in the journal.
    JournalMark(Mark),
    /// End the task in the journal as failed.
    JournalFail(FailNote),
    /// End the task in the journal as cancelled.
    JournalCancel,
    /// End the task in the journal as done.
    JournalComplete,
    /// Say whether the user wants to stop.
    PollCancel,
    /// Copy a tree.
    CopyTree(Place, Place),
    /// List a tree.
    ListTree(Place),
    /// Delete a tree.
    RemoveTree(Place),
    /// Rename a directory.
    Rename(Place, Place),
    /// Make the directory above the place, if it is missing.
    MakeParent(Place),
    /// Link the source to the target.
    CreateJunction,
    /// Remove the link at the source.
    RemoveJunction,
    /// Say whether the link at the source resolves.
    JunctionResolves,
    /// Write the record of the migration with the given status.
    WriteRecord(MigrationStatus),
    /// Remove the record of the migration.
    RemoveRecord,
    /// Move a directory to the recycle bin.
    Recycle(Place),
    /// Add the operation to the history.
    WriteHistory,
    /// Nothing: the operation has ended.
    Stop,
}

/// A stage in the journal.
#[derive(Debug, Clone, Copy, PartialEq, Eq, Structural)]
pub enum Mark {
    Copied,
    ManifestOk,
    RenamingSource,
    SourceRenamed,
    IncrementalSynced,
    JunctionCreated,
    PendingRecord,
    RecordWritten,
    OldRecycled,
    RestoreCopied,
    RestoreManifestOk,
    JunctionRemoved,
    RestoreSwitched,
    RestoreTargetRecycled,
}

/// A reason in the journal.
#[derive(Debug, Clone, Copy, PartialEq, Eq, Structural)]
pub enum FailNote {
    CopyFailed,
    ManifestMismatch,
    SourceRenameFailed,
    ClearTmpFailed,
    SyncFailed,
    SecondMismatch,
    SourceChanged,
    TmpRenameFailed,
    LinkFailed,
    LinkUnresolved,
    LinkInvalid,
    RestoreCopyFailed,
    RemoveLinkFailed,
    SwitchFailed,
}

/// What became of an action.
pub enum Event {
    /// The answer to a question.
    Answer(bool),
    /// Whether the action succeeded.
    Done(Result<(), AppError>),
    /// What a copy did.
    Copied(Result<CopyOutcome, AppError>),
    /// What a tree holds.
    Listed(Result<Manifest, AppError>),
}

/// The event answers the action.
pub open spec fn answers(action: Action, event: Event) -> bool {
    match action {
        Action::IsReparsePoint(_) | Action::PollCancel | Action::JunctionResolves => event
            is Answer,
        Action::CopyTree(_, _) => event is Copied,
        Action::ListTree(_) => event is Listed,
        _ => event is Done,
    }
}

impl Mark {
    /// The stage as it stands in the journal.
    pub open spec fn text(&self) -> Seq<char> {
        match self {
            Mark::Copied => "copied"@,
            Mark::ManifestOk => "manifest_ok"@,
            Mark::RenamingSource => "renaming_source"@,
            Mark::SourceRenamed => "source_renamed"@,
            Mark::IncrementalSynced => "incremental_synced"@,
            Mark::JunctionCreated => "junction_created"@,
            Mark::PendingRecord => "pending_record"@,
            Mark::RecordWritten => "record_written"@,
            Mark::OldRecycled => "old_recycled"@,
            Mark::RestoreCopied => "restore_copied"@,
            Mark::RestoreManifestOk => "restore_manifest_ok"@,
            Mark::JunctionRemoved => "junction_removed"@,
            Mark::RestoreSwitched => "restore_switched"@,
            Mark::RestoreTargetRecycled => "restore_target_recycled"@,
        }
    }

    /// The stage as it stands in the journal.
    pub fn as_str(&self) -> (r: &'static str)
        ensures
            r@ == self.text(),
    {
        match self {
            Mark::Copied => "copied",
            Mark::ManifestOk => "manifest_ok",
            Mark::RenamingSource => "renaming_source",
            Mark::SourceRenamed => "source_renamed",
            Mark::IncrementalSynced => "incremental_synced",
            Mark::JunctionCreated => "junction_created",
            Mark::PendingRecord => "pending_record",
            Mark::RecordWritten => "record_written",
            Mark::OldRecycled => "old_recycled",
            Mark::RestoreCopied => "restore_copied",
            Mark::RestoreManifestOk => "restore_manifest_ok",
            Mark::JunctionRemoved => "junction_removed",
            Mark::RestoreSwitched => "restore_switched",
            Mark::RestoreTargetRecycled => "restore_target_recycled",
        }
    }
}

impl FailNote {
    /// The reason as it stands in the journal.
    pub open spec fn text(&self) -> Seq<char> {
        match self {
            FailNote::CopyFailed => "复制失败"@,
            FailNote::ManifestMismatch => "manifest 不一致"@,
            FailNote::SourceRenameFailed => "源改名失败（可能被占用）"@,
            FailNote::ClearTmpFailed => "清空临时目录失败"@,
            FailNote::SyncFailed => "增量同步失败"@,
            FailNote::SecondMismatch => "二次校验不一致"@,
            FailNote::SourceChanged => "补传期间源发生变化"@,
            FailNote::TmpRenameFailed => "tmp 改名 target 失败"@,
            FailNote::LinkFailed => "建链失败"@,
            FailNote::LinkUnresolved => "junction 解析失败"@,
            FailNote::LinkInvalid => "junction 失效"@,
            FailNote::RestoreCopyFailed => "还原复制失败"@,
            FailNote::RemoveLinkFailed => "删 junction 失败"@,
            FailNote::SwitchFailed => "切换失败，已重建 junction"@,
        }
    }

    /// The reason as it stands in the journal.
    pub fn as_str(&self) -> (r: &'static str)
        ensures
            r@ == self.text(),
    {
        match self {
            FailNote::CopyFailed => "复制失败",
            FailNote::ManifestMismatch => "manifest 不一致",
            FailNote::SourceRenameFailed => "源改名失败（可能被占用）",
            FailNote::ClearTmpFailed => "清空临时目录失败",
            FailNote::SyncFailed => "增量同步失败",
            FailNote::SecondMismatch => "二次校验不一致",
            FailNote::SourceChanged => "补传期间源发生变化",
            FailNote::TmpRenameFailed => "tmp 改名 target 失败",
            FailNote::LinkFailed => "建链失败",
            FailNote::LinkUnresolved => "junction 解析失败",
            FailNote::LinkInvalid => "junction 失效",
            FailNote::RestoreCopyFailed => "还原复制失败",
            FailNote::RemoveLinkFailed => "删 junction 失败",
            FailNote::SwitchFailed => "切换失败，已重建 junction",
        }
    }
}

/// How an event counts for a machine.
#[derive(Debug, Clone, Copy, PartialEq, Eq, Structural)]
pub enum Signal {
    /// Go on.
    Good,
    /// It failed.
    Bad,
    /// The user stopped it.
    Stopped,
    /// Two trees that should be the same are not.
    Differs,
}

/// An error counts as the user's wish to stop, or as a failure.
pub open spec fn error_signal(e: AppError) -> Signal {
    if e is Cancelled {
        Signal::Stopped
    } else {
        Signal::Bad
    }
}

// ---------------------------------------------------------------------------
// Reading from a shadow copy
// ---------------------------------------------------------------------------

/// Where data is read: at its own place, or inside a shadow copy. It is always
/// written at its own place.
#[derive(Debug, Clone)]
pub struct SrcResolver {
    read_root: String,
    vss: bool,
}

impl SrcResolver {
    /// Where the data is read.
    pub closed spec fn root(&self) -> Seq<char> {
        self.read_root@
    }

    /// Whether it is read inside a shadow copy.
    pub closed spec fn uses_snapshot(&self) -> bool {
        self.vss
    }

    /// Reads the data at `original`, inside the shadow copy if there is one.
    pub fn new(original: &str, snapshot_device: Option<&str>) -> (r: Self)
        ensures
            r.uses_snapshot() == snapshot_device is Some,
            r.root() == match snapshot_device {
                Some(device) => shadow_of(device@, original@),
                None => original@,
            },
    {
        match snapshot_device {
            Some(device) => SrcResolver { read_root: shadow_path(device, original), vss: true },
            None => SrcResolver { read_root: String::from_str(original), vss: false },
        }
    }

    /// Where the data is read.
    pub fn read(&self) -> (r: &str)
        ensures
            r@ == self.root(),
    {
        self.read_root.as_str()
    }

    /// Whether it is read inside a shadow copy.
    pub fn vss_enabled(&self) -> (r: bool)
        ensures
            r == self.uses_snapshot(),
    {
        self.vss
    }
}

// ---------------------------------------------------------------------------
// Reports
// ---------------------------------------------------------------------------

/// The percentage of a copy that takes the range `range` of the whole.
pub open spec fn scaled_percent(range: (u8, u8), progress: CopyProgress) -> int {
    if progress.phase == CopyPhase::Preparing {
        range.0 as int
    } else {
        let span = if range.1 > range.0 {
            range.1 - range.0
        } else {
            0
        };
        let p = range.0 + (progress.spec_percent() * span) / 100;
        if p > 255 {
            255
        } else {
            p
        }
    }
}

/// The report about a copy that takes the range `range` of the whole.
pub open spec fn transfer_report(
    task_id: Seq<char>,
    stage: Seq<char>,
    range: (u8, u8),
    progress: CopyProgress,
    preparing_message: Seq<char>,
    copying_message: Seq<char>,
) -> ProgressEventView {
    let preparing = progress.phase == CopyPhase::Preparing;
    ProgressEventView {
        task_id,
        stage,
        percent: scaled_percent(range, progress) as u8,
        message: if preparing {
            preparing_message
        } else {
            copying_message
        },
        transfer: Some(
            TransferProgressView {
                phase: if preparing {
                    "preparing"@
                } else {
                    "copying"@
                },
                completed_bytes: progress.completed_bytes,
                total_bytes: progress.total_bytes,
                completed_files: progress.completed_files,
                total_files: progress.total_files,
                current_path: match progress.current_path {
                    Some(p) => Some(replace_char(p@, '/', '\\')),
                    None => None,
                },
            },
        ),
    }
}

/// Reports how far a copy has come that takes the range `range` of the whole.
pub fn transfer_event(
    task_id: &str,
    stage: &str,
    range: (u8, u8),
    progress: &CopyProgress,
    preparing_message: &str,
    copying_message: &str,
) -> (r: ProgressEvent)
    ensures
        r@ == transfer_report(
            task_id@,
            stage@,
            range,
            *progress,
            preparing_message@,
            copying_message@,
        ),
        0 <= scaled_percent(range, *progress) <= u8::MAX,
{
    let preparing: bool = progress.phase == CopyPhase::Preparing;
    let message: &str = if preparing {
        preparing_message
    } else {
        copying_message
    };
    let percent: u8 = if preparing {
        range.0
    } else {
        let span: u16 = if range.1 > range.0 {
            (range.1 - range.0) as u16
        } else {
            0
        };
        let done: u16 = progress.percent() as u16;
        proof {
            assert(done * span <= 25500) by (nonlinear_arith)
                requires
                    done <= 100,
                    span <= 255,
            ;
        }
        let part: u16 = done * span / 100;
        range.0.saturating_add(part as u8)
    };
    let phase: &str = if preparing {
        "preparing"
    } else {
        "copying"
    };
    let current_path: Option<String> = match &progress.current_path {
        Some(p) => Some(replaced_char(p.as_str(), '/', '\\')),
        None => None,
    };
    let mut event = ProgressEvent::new(task_id, stage, percent, message);
    event.transfer = Some(
        TransferProgress {
            phase: String::from_str(phase),
            completed_bytes: progress.completed_bytes,
            total_bytes: progress.total_bytes,
            completed_files: progress.completed_files,
            total_files: progress.total_files,
            current_path,
        },
    );
    event
}

/// The entry of an operation that succeeded.
pub fn history_entry(op: &str, id: &str, src: &str, dst: &str, time: String) -> (r: HistoryEntry)
    ensures
        r@ == (HistoryEntryView {
            op: op@,
            id: id@,
            src: src@,
            dst: dst@,
            result: "ok"@,
            time: time@,
            duration_sec: 0,
        }),
{
    HistoryEntry {
        op: String::from_str(op),
        id: String::from_str(id),
        src: String::from_str(src),
        dst: String::from_str(dst),
        result: String::from_str("ok"),
        time,
        duration_sec: 0,
    }
}

} // verus!
