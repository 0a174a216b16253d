//! Moving a directory to the repository.

use super::plan::{
    answers, error_signal, history_entry, transfer_event, transfer_report, Action, Event, FailNote,
    Mark, Place, Signal,
};
use super::stage;
use crate::clock::{is_utc_time, now_iso};
use crate::error::AppError;
use crate::file_ops::{
    diff_manifests, entries_view, same_tree, CopyOutcome, CopyProgress, Manifest, ManifestEntryView,
};
use crate::journal::{begins, Journal};
use crate::models::{
    copy_opt, opt_view, HistoryEntry, HistoryEntryView, Migration, MigrationStatus, MigrationView,
    OperationOutcome, ProgressEvent, ProgressEventView,
};
use crate::text::{replace_char, replaced_char};
use vstd::prelude::*;
use vstd::string::*;

verus! {

/// A step of a migration.
#[derive(Debug, Clone, Copy, PartialEq, Eq, Structural)]
pub enum Step {
    /// The source must not be a link already.
    CheckSource,
    Begin,
    PollBefore,
    Copy,
    PollAfter,
    MarkCopied,
    MarkVerified,
    MarkRenaming,
    /// From here on the source is gone from its place.
    RenameSource,
    MarkRenamed,
    /// A shadow copy does not change: there is nothing to catch up with.
    MarkSnapshotSynced,
    /// Did the source change while it was copied?
    ListOld,
    /// It did: copy it once more.
    ClearTmp,
    CopyAgain,
    ListAgain,
    MarkSynced,
    MakeParent,
    RenameTmp,
    CreateLink,
    CheckLink,
    MarkLinked,
    Record,
    MarkRecorded,
    /// Only now the old data may go.
    Recycle,
    MarkRecycled,
    /// The old data could not be removed.
    RecordPending,
    WriteHistory,
    Complete,
}

/// Why a migration ends before its time.
#[derive(Debug, Clone, Copy, PartialEq, Eq, Structural)]
pub enum Failure {
    Reparse,
    BeginRefused,
    Cancelled,
    CopyStopped,
    CopyFailed,
    Mismatch,
    JournalEarly,
    RenameFailed,
    JournalLate,
    ListFailed,
    ClearFailed,
    SyncStopped,
    SyncFailed,
    SyncMismatch,
    SourceChanged,
    RenameTmpFailed,
    LinkFailed,
    LinkUnresolved,
    RecordFailed,
    HistoryFailed,
    CompleteFailed,
}

/// Where a migration stands.
#[derive(Debug, Clone, Copy, PartialEq, Eq, Structural)]
pub enum Phase {
    /// On its way.
    At(Step),
    /// Failed; so many of the actions that clean up have been done.
    Unwinding(Failure, u8),
    /// Failed and cleaned up; the journal is still to be told.
    Closing(Failure),
    Ended,
}

/// What is to be done at a step.
pub open spec fn step_action(step: Step) -> Action {
    match step {
        Step::CheckSource => Action::IsReparsePoint(Place::Source),
        Step::Begin => Action::JournalBegin,
        Step::PollBefore => Action::PollCancel,
        Step::Copy => Action::CopyTree(Place::ReadRoot, Place::Tmp),
        Step::PollAfter => Action::PollCancel,
        Step::MarkCopied => Action::JournalMark(Mark::Copied),
        Step::MarkVerified => Action::JournalMark(Mark::ManifestOk),
        Step::MarkRenaming => Action::JournalMark(Mark::RenamingSource),
        Step::RenameSource => Action::Rename(Place::Source, Place::Old),
        Step::MarkRenamed => Action::JournalMark(Mark::SourceRenamed),
        Step::MarkSnapshotSynced => Action::JournalMark(Mark::IncrementalSynced),
        Step::ListOld => Action::ListTree(Place::Old),
        Step::ClearTmp => Action::RemoveTree(Place::Tmp),
        Step::CopyAgain => Action::CopyTree(Place::Old, Place::Tmp),
        Step::ListAgain => Action::ListTree(Place::Old),
        Step::MarkSynced => Action::JournalMark(Mark::IncrementalSynced),
        Step::MakeParent => Action::MakeParent(Place::Target),
        Step::RenameTmp => Action::Rename(Place::Tmp, Place::Target),
        Step::CreateLink => Action::CreateJunction,
        Step::CheckLink => Action::JunctionResolves,
        Step::MarkLinked => Action::JournalMark(Mark::JunctionCreated),
        Step::Record => Action::WriteRecord(MigrationStatus::Active),
        Step::MarkRecorded => Action::JournalMark(Mark::RecordWritten),
        Step::Recycle => Action::Recycle(Place::Old),
        Step::MarkRecycled => Action::JournalMark(Mark::OldRecycled),
        Step::RecordPending => Action::WriteRecord(MigrationStatus::OldPendingDelete),
        Step::WriteHistory => Action::WriteHistory,
        Step::Complete => Action::JournalComplete,
    }
}

/// What is to be done at a step.
fn find_action(step: Step) -> (r: Action)
    ensures
        r == step_action(step),
{
    match step {
        Step::CheckSource => Action::IsReparsePoint(Place::Source),
        Step::Begin => Action::JournalBegin,
        Step::PollBefore => Action::PollCancel,
        Step::Copy => Action::CopyTree(Place::ReadRoot, Place::Tmp),
        Step::PollAfter => Action::PollCancel,
        Step::MarkCopied => Action::JournalMark(Mark::Copied),
        Step::MarkVerified => Action::JournalMark(Mark::ManifestOk),
        Step::MarkRenaming => Action::JournalMark(Mark::RenamingSource),
        Step::RenameSource => Action::Rename(Place::Source, Place::Old),
        Step::MarkRenamed => Action::JournalMark(Mark::SourceRenamed),
        Step::MarkSnapshotSynced => Action::JournalMark(Mark::IncrementalSynced),
        Step::ListOld => Action::ListTree(Place::Old),
        Step::ClearTmp => Action::RemoveTree(Place::Tmp),
        Step::CopyAgain => Action::CopyTree(Place::Old, Place::Tmp),
        Step::ListAgain => Action::ListTree(Place::Old),
        Step::MarkSynced => Action::JournalMark(Mark::IncrementalSynced),
        Step::MakeParent => Action::MakeParent(Place::Target),
        Step::RenameTmp => Action::Rename(Place::Tmp, Place::Target),
        Step::CreateLink => Action::CreateJunction,
        Step::CheckLink => Action::JunctionResolves,
        Step::MarkLinked => Action::JournalMark(Mark::JunctionCreated),
        Step::Record => Action::WriteRecord(MigrationStatus::Active),
        Step::MarkRecorded => Action::JournalMark(Mark::RecordWritten),
        Step::Recycle => Action::Recycle(Place::Old),
        Step::MarkRecycled => Action::JournalMark(Mark::OldRecycled),
        Step::RecordPending => Action::WriteRecord(MigrationStatus::OldPendingDelete),
        Step::WriteHistory => Action::WriteHistory,
        Step::Complete => Action::JournalComplete,
    }
}

/// What is to be done to clean up after a failure, one thing after the other.
/// What becomes of these actions does not matter.
pub open spec fn cleanup_at(f: Failure, i: u8) -> Option<Action> {
    match f {
        Failure::Cancelled => if i == 0 {
            Some(Action::RemoveTree(Place::Tmp))
        } else {
            None
        },
        Failure::CopyStopped => if i == 0 {
            Some(Action::RemoveTree(Place::Tmp))
        } else {
            None
        },
        Failure::CopyFailed => if i == 0 {
            Some(Action::RemoveTree(Place::Tmp))
        } else {
            None
        },
        Failure::ListFailed => if i == 0 {
            Some(Action::Rename(Place::Old, Place::Source))
        } else {
            None
        },
        Failure::ClearFailed => if i == 0 {
            Some(Action::Rename(Place::Old, Place::Source))
        } else {
            None
        },
        Failure::SyncStopped => if i == 0 {
            Some(Action::Rename(Place::Old, Place::Source))
        } else if i == 1 {
            Some(Action::RemoveTree(Place::Tmp))
        } else {
            None
        },
        Failure::SyncFailed => if i == 0 {
            Some(Action::Rename(Place::Old, Place::Source))
        } else {
            None
        },
        Failure::SyncMismatch => if i == 0 {
            Some(Action::Rename(Place::Old, Place::Source))
        } else {
            None
        },
        Failure::SourceChanged => if i == 0 {
            Some(Action::Rename(Place::Old, Place::Source))
        } else {
            None
        },
        Failure::LinkFailed => if i == 0 {
            Some(Action::RemoveJunction)
        } else if i == 1 {
            Some(Action::Rename(Place::Target, Place::Tmp))
        } else if i == 2 {
            Some(Action::Rename(Place::Old, Place::Source))
        } else {
            None
        },
        Failure::LinkUnresolved => if i == 0 {
            Some(Action::RemoveJunction)
        } else if i == 1 {
            Some(Action::Rename(Place::Target, Place::Tmp))
        } else if i == 2 {
            Some(Action::Rename(Place::Old, Place::Source))
        } else {
            None
        },
        Failure::RecordFailed => if i == 0 {
            Some(Action::WriteRecord(MigrationStatus::OldPendingDelete))
        } else {
            None
        },
        _ => None,
    }
}

/// What is to be done to clean up after a failure, one thing after the other.
/// What becomes of these actions does not matter.
fn find_cleanup(f: Failure, i: u8) -> (r: Option<Action>)
    ensures
        r == cleanup_at(f, i),
{
    match f {
        Failure::Cancelled => if i == 0 {
            Some(Action::RemoveTree(Place::Tmp))
        } else {
            None
        },
        Failure::CopyStopped => if i == 0 {
            Some(Action::RemoveTree(Place::Tmp))
        } else {
            None
        },
        Failure::CopyFailed => if i == 0 {
            Some(Action::RemoveTree(Place::Tmp))
        } else {
            None
        },
        Failure::ListFailed => if i == 0 {
            Some(Action::Rename(Place::Old, Place::Source))
        } else {
            None
        },
        Failure::ClearFailed => if i == 0 {
            Some(Action::Rename(Place::Old, Place::Source))
        } else {
            None
        },
        Failure::SyncStopped => if i == 0 {
            Some(Action::Rename(Place::Old, Place::Source))
        } else if i == 1 {
            Some(Action::RemoveTree(Place::Tmp))
        } else {
            None
        },
        Failure::SyncFailed => if i == 0 {
            Some(Action::Rename(Place::Old, Place::Source))
        } else {
            None
        },
        Failure::SyncMismatch => if i == 0 {
            Some(Action::Rename(Place::Old, Place::Source))
        } else {
            None
        },
        Failure::SourceChanged => if i == 0 {
            Some(Action::Rename(Place::Old, Place::Source))
        } else {
            None
        },
        Failure::LinkFailed => if i == 0 {
            Some(Action::RemoveJunction)
        } else if i == 1 {
            Some(Action::Rename(Place::Target, Place::Tmp))
        } else if i == 2 {
            Some(Action::Rename(Place::Old, Place::Source))
        } else {
            None
        },
        Failure::LinkUnresolved => if i == 0 {
            Some(Action::RemoveJunction)
        } else if i == 1 {
            Some(Action::Rename(Place::Target, Place::Tmp))
        } else if i == 2 {
            Some(Action::Rename(Place::Old, Place::Source))
        } else {
            None
        },
        Failure::RecordFailed => if i == 0 {
            Some(Action::WriteRecord(MigrationStatus::OldPendingDelete))
        } else {
            None
        },
        _ => None,
    }
}

/// What the journal is told about a failure. A task that it is told nothing about
/// stays in it for the recovery.
pub open spec fn closing_action(f: Failure) -> Option<Action> {
    match f {
        Failure::Cancelled => Some(Action::JournalCancel),
        Failure::CopyStopped => Some(Action::JournalCancel),
        Failure::CopyFailed => Some(Action::JournalFail(FailNote::CopyFailed)),
        Failure::Mismatch => Some(Action::JournalFail(FailNote::ManifestMismatch)),
        Failure::RenameFailed => Some(Action::JournalFail(FailNote::SourceRenameFailed)),
        Failure::ListFailed => Some(Action::JournalFail(FailNote::SyncFailed)),
        Failure::ClearFailed => Some(Action::JournalFail(FailNote::ClearTmpFailed)),
        Failure::SyncStopped => Some(Action::JournalCancel),
        Failure::SyncFailed => Some(Action::JournalFail(FailNote::SyncFailed)),
        Failure::SyncMismatch => Some(Action::JournalFail(FailNote::SecondMismatch)),
        Failure::SourceChanged => Some(Action::JournalFail(FailNote::SourceChanged)),
        Failure::RenameTmpFailed => Some(Action::JournalFail(FailNote::TmpRenameFailed)),
        Failure::LinkFailed => Some(Action::JournalFail(FailNote::LinkFailed)),
        Failure::LinkUnresolved => Some(Action::JournalFail(FailNote::LinkUnresolved)),
        Failure::RecordFailed => Some(Action::JournalMark(Mark::PendingRecord)),
        _ => None,
    }
}

/// What the journal is told about a failure. A task that it is told nothing about
/// stays in it for the recovery.
fn find_closing(f: Failure) -> (r: Option<Action>)
    ensures
        r == closing_action(f),
{
    match f {
        Failure::Cancelled => Some(Action::JournalCancel),
        Failure::CopyStopped => Some(Action::JournalCancel),
        Failure::CopyFailed => Some(Action::JournalFail(FailNote::CopyFailed)),
        Failure::Mismatch => Some(Action::JournalFail(FailNote::ManifestMismatch)),
        Failure::RenameFailed => Some(Action::JournalFail(FailNote::SourceRenameFailed)),
        Failure::ListFailed => Some(Action::JournalFail(FailNote::SyncFailed)),
        Failure::ClearFailed => Some(Action::JournalFail(FailNote::ClearTmpFailed)),
        Failure::SyncStopped => Some(Action::JournalCancel),
        Failure::SyncFailed => Some(Action::JournalFail(FailNote::SyncFailed)),
        Failure::SyncMismatch => Some(Action::JournalFail(FailNote::SecondMismatch)),
        Failure::SourceChanged => Some(Action::JournalFail(FailNote::SourceChanged)),
        Failure::RenameTmpFailed => Some(Action::JournalFail(FailNote::TmpRenameFailed)),
        Failure::LinkFailed => Some(Action::JournalFail(FailNote::LinkFailed)),
        Failure::LinkUnresolved => Some(Action::JournalFail(FailNote::LinkUnresolved)),
        Failure::RecordFailed => Some(Action::JournalMark(Mark::PendingRecord)),
        _ => None,
    }
}

/// What follows the cleaning up.
pub open spec fn after_cleanup(f: Failure) -> Phase {
    if closing_action(f).is_some() {
        Phase::Closing(f)
    } else {
        Phase::Ended
    }
}

/// What follows the cleaning up.
fn find_after_cleanup(f: Failure) -> (r: Phase)
    ensures
        r == after_cleanup(f),
{
    if find_closing(f).is_some() {
        Phase::Closing(f)
    } else {
        Phase::Ended
    }
}

/// What follows a failure.
pub open spec fn enter_failure(f: Failure) -> Phase {
    if cleanup_at(f, 0).is_some() {
        Phase::Unwinding(f, 0)
    } else {
        after_cleanup(f)
    }
}

/// What follows a failure.
fn find_failure_phase(f: Failure) -> (r: Phase)
    ensures
        r == enter_failure(f),
{
    if find_cleanup(f, 0).is_some() {
        Phase::Unwinding(f, 0)
    } else {
        find_after_cleanup(f)
    }
}

/// What follows an event.
#[derive(Debug, Clone, Copy, PartialEq, Eq, Structural)]
pub enum Next {
    Go(Step),
    Fail(Failure),
    Finish,
}

/// The next step, or the failure.
pub open spec fn go(signal: Signal, next: Step, f: Failure) -> Next {
    if signal == Signal::Good {
        Next::Go(next)
    } else {
        Next::Fail(f)
    }
}

/// The next step, or the failure.
fn follow(signal: Signal, next: Step, f: Failure) -> (r: Next)
    ensures
        r == go(signal, next, f),
{
    if signal == Signal::Good {
        Next::Go(next)
    } else {
        Next::Fail(f)
    }
}

/// Whether the source is no longer what it was when the failure came.
pub open spec fn is_changed(f: Failure) -> bool {
    match f {
        Failure::Reparse => false,
        Failure::BeginRefused => false,
        Failure::Cancelled => false,
        Failure::CopyStopped => false,
        Failure::CopyFailed => false,
        Failure::Mismatch => false,
        Failure::JournalEarly => false,
        Failure::RenameFailed => false,
        Failure::JournalLate => true,
        Failure::ListFailed => true,
        Failure::ClearFailed => true,
        Failure::SyncStopped => true,
        Failure::SyncFailed => true,
        Failure::SyncMismatch => true,
        Failure::SourceChanged => true,
        Failure::RenameTmpFailed => true,
        Failure::LinkFailed => true,
        Failure::LinkUnresolved => true,
        Failure::RecordFailed => true,
        Failure::HistoryFailed => true,
        Failure::CompleteFailed => true,
    }
}

/// Whether the source is no longer what it was when the failure came.
fn source_is_changed(f: Failure) -> (r: bool)
    ensures
        r == is_changed(f),
{
    match f {
        Failure::Reparse => false,
        Failure::BeginRefused => false,
        Failure::Cancelled => false,
        Failure::CopyStopped => false,
        Failure::CopyFailed => false,
        Failure::Mismatch => false,
        Failure::JournalEarly => false,
        Failure::RenameFailed => false,
        Failure::JournalLate => true,
        Failure::ListFailed => true,
        Failure::ClearFailed => true,
        Failure::SyncStopped => true,
        Failure::SyncFailed => true,
        Failure::SyncMismatch => true,
        Failure::SourceChanged => true,
        Failure::RenameTmpFailed => true,
        Failure::LinkFailed => true,
        Failure::LinkUnresolved => true,
        Failure::RecordFailed => true,
        Failure::HistoryFailed => true,
        Failure::CompleteFailed => true,
    }
}

/// The reason that is reported.
pub open spec fn reason_text(f: Failure) -> Seq<char> {
    match f {
        Failure::Reparse => "migrate_rejected_reparse"@,
        Failure::BeginRefused => "migrate_rolled_back"@,
        Failure::Cancelled => "migrate_canceled"@,
        Failure::CopyStopped => "migrate_rolled_back"@,
        Failure::CopyFailed => "migrate_rolled_back"@,
        Failure::Mismatch => "migrate_rolled_back"@,
        Failure::JournalEarly => "migrate_rolled_back"@,
        Failure::RenameFailed => "migrate_rolled_back"@,
        Failure::JournalLate => "migrate_partial"@,
        Failure::ListFailed => "migrate_partial"@,
        Failure::ClearFailed => "migrate_partial"@,
        Failure::SyncStopped => "migrate_partial"@,
        Failure::SyncFailed => "migrate_partial"@,
        Failure::SyncMismatch => "migrate_partial"@,
        Failure::SourceChanged => "migrate_partial"@,
        Failure::RenameTmpFailed => "migrate_partial"@,
        Failure::LinkFailed => "migrate_partial"@,
        Failure::LinkUnresolved => "migrate_partial"@,
        Failure::RecordFailed => "migrate_partial"@,
        Failure::HistoryFailed => "migrate_partial"@,
        Failure::CompleteFailed => "migrate_partial"@,
    }
}

/// The reason that is reported.
fn reason_of(f: Failure) -> (r: &'static str)
    ensures
        r@ == reason_text(f),
{
    match f {
        Failure::Reparse => "migrate_rejected_reparse",
        Failure::BeginRefused => "migrate_rolled_back",
        Failure::Cancelled => "migrate_canceled",
        Failure::CopyStopped => "migrate_rolled_back",
        Failure::CopyFailed => "migrate_rolled_back",
        Failure::Mismatch => "migrate_rolled_back",
        Failure::JournalEarly => "migrate_rolled_back",
        Failure::RenameFailed => "migrate_rolled_back",
        Failure::JournalLate => "migrate_partial",
        Failure::ListFailed => "migrate_partial",
        Failure::ClearFailed => "migrate_partial",
        Failure::SyncStopped => "migrate_partial",
        Failure::SyncFailed => "migrate_partial",
        Failure::SyncMismatch => "migrate_partial",
        Failure::SourceChanged => "migrate_partial",
        Failure::RenameTmpFailed => "migrate_partial",
        Failure::LinkFailed => "migrate_partial",
        Failure::LinkUnresolved => "migrate_partial",
        Failure::RecordFailed => "migrate_partial",
        Failure::HistoryFailed => "migrate_partial",
        Failure::CompleteFailed => "migrate_partial",
    }
}

/// The reason that is reported where the journal cannot be told.
pub open spec fn close_reason_text(f: Failure) -> Seq<char> {
    match f {
        Failure::Reparse => "migrate_rolled_back"@,
        Failure::BeginRefused => "migrate_rolled_back"@,
        Failure::Cancelled => "migrate_rolled_back"@,
        Failure::CopyStopped => "migrate_rolled_back"@,
        Failure::CopyFailed => "migrate_rolled_back"@,
        Failure::Mismatch => "migrate_rolled_back"@,
        Failure::JournalEarly => "migrate_rolled_back"@,
        Failure::RenameFailed => "migrate_rolled_back"@,
        Failure::JournalLate => "migrate_partial"@,
        Failure::ListFailed => "migrate_partial"@,
        Failure::ClearFailed => "migrate_partial"@,
        Failure::SyncStopped => "migrate_partial"@,
        Failure::SyncFailed => "migrate_partial"@,
        Failure::SyncMismatch => "migrate_partial"@,
        Failure::SourceChanged => "migrate_partial"@,
        Failure::RenameTmpFailed => "migrate_partial"@,
        Failure::LinkFailed => "migrate_partial"@,
        Failure::LinkUnresolved => "migrate_partial"@,
        Failure::RecordFailed => "migrate_partial"@,
        Failure::HistoryFailed => "migrate_partial"@,
        Failure::CompleteFailed => "migrate_partial"@,
    }
}

/// The reason that is reported where the journal cannot be told.
fn close_reason_of(f: Failure) -> (r: &'static str)
    ensures
        r@ == close_reason_text(f),
{
    match f {
        Failure::Reparse => "migrate_rolled_back",
        Failure::BeginRefused => "migrate_rolled_back",
        Failure::Cancelled => "migrate_rolled_back",
        Failure::CopyStopped => "migrate_rolled_back",
        Failure::CopyFailed => "migrate_rolled_back",
        Failure::Mismatch => "migrate_rolled_back",
        Failure::JournalEarly => "migrate_rolled_back",
        Failure::RenameFailed => "migrate_rolled_back",
        Failure::JournalLate => "migrate_partial",
        Failure::ListFailed => "migrate_partial",
        Failure::ClearFailed => "migrate_partial",
        Failure::SyncStopped => "migrate_partial",
        Failure::SyncFailed => "migrate_partial",
        Failure::SyncMismatch => "migrate_partial",
        Failure::SourceChanged => "migrate_partial",
        Failure::RenameTmpFailed => "migrate_partial",
        Failure::LinkFailed => "migrate_partial",
        Failure::LinkUnresolved => "migrate_partial",
        Failure::RecordFailed => "migrate_partial",
        Failure::HistoryFailed => "migrate_partial",
        Failure::CompleteFailed => "migrate_partial",
    }
}

/// What follows an event at a step. `snapshot`: the source is read from a shadow copy;
/// `matches`: the last copy wrote what it read.
pub open spec fn next_of(step: Step, signal: Signal, snapshot: bool, matches: bool) -> Next {
    match step {
        Step::CheckSource => go(signal, Step::Begin, Failure::Reparse),
        Step::Begin => go(signal, Step::PollBefore, Failure::BeginRefused),
        Step::PollBefore => go(signal, Step::Copy, Failure::Cancelled),
        Step::Copy => if signal == Signal::Stopped {
            Next::Fail(Failure::CopyStopped)
        } else {
            go(signal, Step::PollAfter, Failure::CopyFailed)
        },
        Step::PollAfter => if signal == Signal::Good && !matches {
            Next::Fail(Failure::Mismatch)
        } else {
            go(signal, Step::MarkCopied, Failure::Cancelled)
        },
        Step::MarkCopied => go(signal, Step::MarkVerified, Failure::JournalEarly),
        Step::MarkVerified => go(signal, Step::MarkRenaming, Failure::JournalEarly),
        Step::MarkRenaming => go(signal, Step::RenameSource, Failure::JournalEarly),
        Step::RenameSource => go(signal, Step::MarkRenamed, Failure::RenameFailed),
        Step::MarkRenamed => go(
            signal,
            if snapshot {
                Step::MarkSnapshotSynced
            } else {
                Step::ListOld
            },
            Failure::JournalLate,
        ),
        Step::MarkSnapshotSynced => go(signal, Step::MakeParent, Failure::JournalLate),
        Step::ListOld => if signal == Signal::Differs {
            Next::Go(Step::ClearTmp)
        } else {
            go(signal, Step::MarkSynced, Failure::ListFailed)
        },
        Step::ClearTmp => go(signal, Step::CopyAgain, Failure::ClearFailed),
        Step::CopyAgain => if signal == Signal::Stopped {
            Next::Fail(Failure::SyncStopped)
        } else if signal == Signal::Differs {
            Next::Fail(Failure::SyncMismatch)
        } else {
            go(signal, Step::ListAgain, Failure::SyncFailed)
        },
        Step::ListAgain => if signal == Signal::Differs {
            Next::Fail(Failure::SourceChanged)
        } else {
            go(signal, Step::MarkSynced, Failure::ListFailed)
        },
        Step::MarkSynced => go(signal, Step::MakeParent, Failure::JournalLate),
        Step::MakeParent => Next::Go(Step::RenameTmp),
        Step::RenameTmp => go(signal, Step::CreateLink, Failure::RenameTmpFailed),
        Step::CreateLink => go(signal, Step::CheckLink, Failure::LinkFailed),
        Step::CheckLink => go(signal, Step::MarkLinked, Failure::LinkUnresolved),
        Step::MarkLinked => go(signal, Step::Record, Failure::JournalLate),
        Step::Record => go(signal, Step::MarkRecorded, Failure::RecordFailed),
        Step::MarkRecorded => go(signal, Step::Recycle, Failure::JournalLate),
        Step::Recycle => if signal == Signal::Good {
            Next::Go(Step::MarkRecycled)
        } else {
            Next::Go(Step::RecordPending)
        },
        Step::MarkRecycled => go(signal, Step::WriteHistory, Failure::JournalLate),
        Step::RecordPending => Next::Go(Step::WriteHistory),
        Step::WriteHistory => go(signal, Step::Complete, Failure::HistoryFailed),
        Step::Complete => if signal == Signal::Good {
            Next::Finish
        } else {
            Next::Fail(Failure::CompleteFailed)
        },
    }
}

/// What follows an event at a step. `snapshot`: the source is read from a shadow copy;
/// `matches`: the last copy wrote what it read.
fn find_next(step: Step, signal: Signal, snapshot: bool, matches: bool) -> (r: Next)
    ensures
        r == next_of(step, signal, snapshot, matches),
{
    match step {
        Step::CheckSource => follow(signal, Step::Begin, Failure::Reparse),
        Step::Begin => follow(signal, Step::PollBefore, Failure::BeginRefused),
        Step::PollBefore => follow(signal, Step::Copy, Failure::Cancelled),
        Step::Copy => if signal == Signal::Stopped {
            Next::Fail(Failure::CopyStopped)
        } else {
            follow(signal, Step::PollAfter, Failure::CopyFailed)
        },
        Step::PollAfter => if signal == Signal::Good && !matches {
            Next::Fail(Failure::Mismatch)
        } else {
            follow(signal, Step::MarkCopied, Failure::Cancelled)
        },
        Step::MarkCopied => follow(signal, Step::MarkVerified, Failure::JournalEarly),
        Step::MarkVerified => follow(signal, Step::MarkRenaming, Failure::JournalEarly),
        Step::MarkRenaming => follow(signal, Step::RenameSource, Failure::JournalEarly),
        Step::RenameSource => follow(signal, Step::MarkRenamed, Failure::RenameFailed),
        Step::MarkRenamed => follow(
            signal,
            if snapshot {
                Step::MarkSnapshotSynced
            } else {
                Step::ListOld
            },
            Failure::JournalLate,
        ),
        Step::MarkSnapshotSynced => follow(signal, Step::MakeParent, Failure::JournalLate),
        Step::ListOld => if signal == Signal::Differs {
            Next::Go(Step::ClearTmp)
        } else {
            follow(signal, Step::MarkSynced, Failure::ListFailed)
        },
        Step::ClearTmp => follow(signal, Step::CopyAgain, Failure::ClearFailed),
        Step::CopyAgain => if signal == Signal::Stopped {
            Next::Fail(Failure::SyncStopped)
        } else if signal == Signal::Differs {
            Next::Fail(Failure::SyncMismatch)
        } else {
            follow(signal, Step::ListAgain, Failure::SyncFailed)
        },
        Step::ListAgain => if signal == Signal::Differs {
            Next::Fail(Failure::SourceChanged)
        } else {
            follow(signal, Step::MarkSynced, Failure::ListFailed)
        },
        Step::MarkSynced => follow(signal, Step::MakeParent, Failure::JournalLate),
        Step::MakeParent => Next::Go(Step::RenameTmp),
        Step::RenameTmp => follow(signal, Step::CreateLink, Failure::RenameTmpFailed),
        Step::CreateLink => follow(signal, Step::CheckLink, Failure::LinkFailed),
        Step::CheckLink => follow(signal, Step::MarkLinked, Failure::LinkUnresolved),
        Step::MarkLinked => follow(signal, Step::Record, Failure::JournalLate),
        Step::Record => follow(signal, Step::MarkRecorded, Failure::RecordFailed),
        Step::MarkRecorded => follow(signal, Step::Recycle, Failure::JournalLate),
        Step::Recycle => if signal == Signal::Good {
            Next::Go(Step::MarkRecycled)
        } else {
            Next::Go(Step::RecordPending)
        },
        Step::MarkRecycled => follow(signal, Step::WriteHistory, Failure::JournalLate),
        Step::RecordPending => Next::Go(Step::WriteHistory),
        Step::WriteHistory => follow(signal, Step::Complete, Failure::HistoryFailed),
        Step::Complete => if signal == Signal::Good {
            Next::Finish
        } else {
            Next::Fail(Failure::CompleteFailed)
        },
    }
}

// ---------------------------------------------------------------------------
// Model
// ---------------------------------------------------------------------------

/// A migration that is to be carried out.
#[derive(Debug, Clone)]
pub struct MigratePlan {
    pub task_id: String,
    pub migration_id: String,
    pub src: String,
    /// Where the data is to lie in the end.
    pub target: String,
    pub tmp: String,
    pub old_path: String,
    pub preset_id: Option<String>,
    pub source_volume_serial: String,
    pub target_volume_serial: String,
    /// Read the source from a shadow copy.
    pub enable_vss: bool,
    /// How many files are copied at once, where the user wants to say.
    pub copy_concurrency: Option<usize>,
}

impl MigratePlan {
    /// Begins the task in the journal.
    pub fn begin_in(&self, journal: &mut Journal) -> (r: Result<(), AppError>)
        ensures
            begins(
                old(journal)@,
                final(journal)@,
                r,
                self.task_id@,
                self.migration_id@,
                "migrate"@,
                self.src@,
                self.target@,
                self.tmp@,
                self.old_path@,
            ),
    {
        journal.begin(
            self.task_id.as_str(),
            self.migration_id.as_str(),
            "migrate",
            self.src.as_str(),
            self.target.as_str(),
            self.tmp.as_str(),
            self.old_path.as_str(),
        )
    }
}

/// How an event counts at a step, where `copied` was read by the last copy.
pub open spec fn signal_of(step: Step, event: Event, copied: Seq<ManifestEntryView>) -> Signal {
    match event {
        Event::Answer(b) => if b == (step == Step::CheckLink) {
            Signal::Good
        } else {
            Signal::Bad
        },
        Event::Done(Ok(_)) => Signal::Good,
        Event::Done(Err(_)) => Signal::Bad,
        Event::Copied(Ok(o)) => if step == Step::CopyAgain && !copies_match(o) {
            Signal::Differs
        } else {
            Signal::Good
        },
        Event::Copied(Err(e)) => error_signal(e),
        Event::Listed(Ok(m)) => if same_tree(copied, entries_view(m.entries@)) {
            Signal::Good
        } else {
            Signal::Differs
        },
        Event::Listed(Err(_)) => Signal::Bad,
    }
}

/// What was written is what was read.
pub open spec fn copies_match(o: CopyOutcome) -> bool {
    same_tree(
        entries_view(o.copied_manifest.entries@),
        entries_view(o.dst_manifest.entries@),
    )
}

/// The error in an event.
pub open spec fn event_error(event: Event) -> Option<AppError> {
    match event {
        Event::Done(Err(e)) => Some(e),
        Event::Copied(Err(e)) => Some(e),
        Event::Listed(Err(e)) => Some(e),
        _ => None,
    }
}

/// Model of a [`MigrateRun`].
pub struct RunView {
    pub phase: Phase,
    /// The source is read from a shadow copy.
    pub snapshot: bool,
    /// What the last copy read.
    pub copied: Seq<ManifestEntryView>,
    /// The last copy wrote what it read.
    pub matches: bool,
    /// Why the migration failed, if it did.
    pub failure: Option<Failure>,
    /// The error that came with the failure.
    pub error: Option<AppError>,
    /// The journal could not be told about the failure.
    pub journal_broken: bool,
    /// When the record was made.
    pub created_at: Seq<char>,
    /// Why the old data could not be removed.
    pub note: Option<Seq<char>>,
}

/// The beginning of a migration.
pub open spec fn run_start(snapshot: bool) -> RunView {
    RunView {
        phase: Phase::At(Step::CheckSource),
        snapshot,
        copied: Seq::empty(),
        matches: false,
        failure: None,
        error: None,
        journal_broken: false,
        created_at: Seq::empty(),
        note: None,
    }
}

/// What is to be done in a phase.
pub open spec fn phase_action(phase: Phase) -> Action {
    match phase {
        Phase::At(step) => step_action(step),
        Phase::Unwinding(f, i) => match cleanup_at(f, i) {
            Some(a) => a,
            None => Action::Stop,
        },
        Phase::Closing(f) => match closing_action(f) {
            Some(a) => a,
            None => Action::Stop,
        },
        Phase::Ended => Action::Stop,
    }
}

/// The migration after an event at the given time.
pub open spec fn after_event(s: RunView, event: Event, now: Seq<char>) -> RunView {
    match s.phase {
        Phase::At(step) => {
            let copied = match event {
                Event::Copied(Ok(o)) => entries_view(o.copied_manifest.entries@),
                _ => s.copied,
            };
            let matches = match event {
                Event::Copied(Ok(o)) => copies_match(o),
                _ => s.matches,
            };
            let next = next_of(step, signal_of(step, event, s.copied), s.snapshot, matches);
            RunView {
                phase: match next {
                    Next::Go(t) => Phase::At(t),
                    Next::Fail(f) => enter_failure(f),
                    Next::Finish => Phase::Ended,
                },
                copied,
                matches,
                failure: match next {
                    Next::Fail(f) => Some(f),
                    _ => s.failure,
                },
                error: match next {
                    Next::Fail(_) => event_error(event),
                    _ => s.error,
                },
                created_at: if next == Next::Go(Step::Record) {
                    now
                } else {
                    s.created_at
                },
                note: if step == Step::Recycle {
                    match event_error(event) {
                        Some(e) => Some(e.text()),
                        None => s.note,
                    }
                } else {
                    s.note
                },
                ..s
            }
        },
        Phase::Unwinding(f, i) => RunView {
            phase: if i < 255 && cleanup_at(f, (i + 1) as u8) is Some {
                Phase::Unwinding(f, (i + 1) as u8)
            } else {
                after_cleanup(f)
            },
            ..s
        },
        Phase::Closing(f) => match event {
            Event::Done(Err(e)) => RunView {
                phase: Phase::Ended,
                error: Some(e),
                journal_broken: true,
                ..s
            },
            _ => RunView { phase: Phase::Ended, ..s },
        },
        Phase::Ended => s,
    }
}

/// The record of a migration.
pub open spec fn record_of_plan(
    plan: MigratePlan,
    created_at: Seq<char>,
    status: MigrationStatus,
    note: Option<Seq<char>>,
) -> MigrationView {
    MigrationView {
        id: plan.migration_id@,
        schema_version: 1,
        source: replace_char(plan.src@, '/', '\\'),
        target: replace_char(plan.target@, '/', '\\'),
        old_path: replace_char(plan.old_path@, '/', '\\'),
        preset: opt_view(plan.preset_id),
        created_at,
        status,
        source_volume_serial: plan.source_volume_serial@,
        target_volume_serial: plan.target_volume_serial@,
        recycle_bin_ref: Seq::empty(),
        pending_cleanup: note,
    }
}

/// The error of a failed migration: one of its own, or the one that came with
/// the failure, or the journal's.
pub open spec fn is_run_error(s: RunView, e: AppError) -> bool {
    if s.journal_broken {
        s.error == Some(e)
    } else {
        match s.failure->0 {
            Failure::Reparse => e matches AppError::Migrate(m) && m@
                == "源已是 reparse point，不能重复迁移"@,
            Failure::Cancelled => e is Cancelled,
            Failure::Mismatch => e matches AppError::Migrate(m) && m@
                == "manifest 不一致，已保留 tmp 待人工确认"@,
            Failure::SyncMismatch => e matches AppError::Migrate(m) && m@
                == "增量后 manifest 不一致"@,
            Failure::SourceChanged => e matches AppError::Migrate(m) && m@ == "补传期间源发生变化"@,
            Failure::LinkUnresolved => e matches AppError::Junction(m) && m@ == "junction 解析失败"@,
            _ => s.error == Some(e),
        }
    }
}

/// The failures that bring an error of their own.
pub open spec fn has_own_error(f: Failure) -> bool {
    f == Failure::Reparse || f == Failure::Cancelled || f == Failure::Mismatch || f
        == Failure::SyncMismatch || f == Failure::SourceChanged || f == Failure::LinkUnresolved
}

/// The state is one that a run can be in.
pub open spec fn run_ok(s: RunView) -> bool {
    &&& match s.phase {
        Phase::At(_) => s.failure is None,
        Phase::Unwinding(f, i) => s.failure == Some(f) && cleanup_at(f, i) is Some,
        Phase::Closing(f) => s.failure == Some(f) && closing_action(f) is Some,
        Phase::Ended => true,
    }
    &&& s.journal_broken ==> s.phase == Phase::Ended && s.failure is Some && s.error is Some
    &&& s.failure matches Some(f) ==> has_own_error(f) || s.error is Some
}

/// `r` is how the run `s` of the plan ended.
pub open spec fn ends_as(
    s: RunView,
    plan: MigratePlan,
    r: Result<(Migration, OperationOutcome), (AppError, OperationOutcome)>,
) -> bool {
    match s.failure {
        None => {
            &&& r is Ok
            &&& r->Ok_0.0@ == record_of_plan(
                plan,
                s.created_at,
                if s.note is Some {
                    MigrationStatus::OldPendingDelete
                } else {
                    MigrationStatus::Active
                },
                s.note,
            )
            &&& r->Ok_0.1.source_changed
            &&& r->Ok_0.1.reason@ == "migrated"@
        },
        Some(f) => {
            &&& r is Err
            &&& is_run_error(s, r->Err_0.0)
            &&& r->Err_0.1.source_changed == is_changed(f)
            &&& r->Err_0.1.reason@ == if s.journal_broken {
                close_reason_text(f)
            } else {
                reason_text(f)
            }
        },
    }
}

/// The stage, the percentage and the message that are reported in a phase.
pub open spec fn announcement_of(phase: Phase) -> Option<(Seq<char>, u8, Seq<char>)> {
    match phase {
        Phase::At(Step::PollBefore) => Some((stage::COPYING@, 0, "准备复制到临时目录"@)),
        Phase::At(Step::MarkCopied) | Phase::Closing(Failure::Mismatch) => Some(
            (stage::VERIFYING@, 60, "校验 manifest"@),
        ),
        Phase::At(Step::RenameSource) => Some((stage::RENAMING_SOURCE@, 70, "改名源目录"@)),
        Phase::At(Step::MarkSnapshotSynced) => Some(
            (stage::SYNCING@, 80, "快照一致视图，跳过增量同步"@),
        ),
        Phase::At(Step::ListOld) => Some((stage::SYNCING@, 80, "检查复制期间的变化"@)),
        Phase::At(Step::MakeParent) => Some((stage::CREATING_JUNCTION@, 90, "建立 junction"@)),
        Phase::At(Step::Record) => Some((stage::RECORDING@, 95, "记录迁移映射"@)),
        Phase::At(Step::Recycle) => Some((stage::CLEANING@, 99, "清理原目录"@)),
        _ => None,
    }
}

// ---------------------------------------------------------------------------
// Executable
// ---------------------------------------------------------------------------

/// A migration on its way.
pub struct MigrateRun {
    phase: Phase,
    snapshot: bool,
    copied: Manifest,
    matches: bool,
    failure: Option<Failure>,
    error: Option<AppError>,
    journal_broken: bool,
    created_at: String,
    note: Option<String>,
}

impl View for MigrateRun {
    type V = RunView;

    closed spec fn view(&self) -> RunView {
        RunView {
            phase: self.phase,
            snapshot: self.snapshot,
            copied: entries_view(self.copied.entries@),
            matches: self.matches,
            failure: self.failure,
            error: self.error,
            journal_broken: self.journal_broken,
            created_at: self.created_at@,
            note: opt_view(self.note),
        }
    }
}

impl MigrateRun {
    /// The run is in a state that it can be in.
    pub open spec fn wf(&self) -> bool {
        run_ok(self@)
    }

    /// Begins a migration.
    pub fn start(snapshot: bool) -> (r: Self)
        ensures
            r.wf(),
            r@ == run_start(snapshot),
    {
        let r = MigrateRun {
            phase: Phase::At(Step::CheckSource),
            snapshot,
            copied: Manifest { root: String::new(), entries: Vec::new() },
            matches: false,
            failure: None,
            error: None,
            journal_broken: false,
            created_at: String::new(),
            note: None,
        };
        assert(r@.copied =~= Seq::<ManifestEntryView>::empty());
        r
    }

    /// What is to be done next.
    pub fn action(&self) -> (r: Action)
        ensures
            r == phase_action(self@.phase),
    {
        match self.phase {
            Phase::At(step) => find_action(step),
            Phase::Unwinding(f, i) => match find_cleanup(f, i) {
                Some(a) => a,
                None => Action::Stop,
            },
            Phase::Closing(f) => match find_closing(f) {
                Some(a) => a,
                None => Action::Stop,
            },
            Phase::Ended => Action::Stop,
        }
    }

    /// How an event counts at a step.
    fn weigh(&self, step: Step, event: &Event) -> (r: Signal)
        ensures
            r == signal_of(step, *event, self@.copied),
    {
        match event {
            Event::Answer(b) => if *b == (step == Step::CheckLink) {
                Signal::Good
            } else {
                Signal::Bad
            },
            Event::Done(r) => match r {
                Ok(_) => Signal::Good,
                Err(_) => Signal::Bad,
            },
            Event::Copied(r) => match r {
                Ok(o) => if step == Step::CopyAgain && diff_manifests(
                    &o.copied_manifest,
                    &o.dst_manifest,
                ).len() > 0 {
                    Signal::Differs
                } else {
                    Signal::Good
                },
                Err(e) => match e {
                    AppError::Cancelled => Signal::Stopped,
                    _ => Signal::Bad,
                },
            },
            Event::Listed(r) => match r {
                Ok(m) => if diff_manifests(&self.copied, m).len() == 0 {
                    Signal::Good
                } else {
                    Signal::Differs
                },
                Err(_) => Signal::Bad,
            },
        }
    }

    /// Takes in what became of the last action, at the given time.
    pub fn advance_at(&mut self, event: Event, now: String)
        requires
            old(self).wf(),
            answers(old(self).action_spec(), event),
        ensures
            final(self).wf(),
            final(self)@ == after_event(old(self)@, event, now@),
    {
        let ghost s0 = self@;
        let ghost ev = event;
        match self.phase {
            Phase::At(step) => {
                let signal: Signal = self.weigh(step, &event);
                let matches: bool = match &event {
                    Event::Copied(Ok(o)) => diff_manifests(
                        &o.copied_manifest,
                        &o.dst_manifest,
                    ).len() == 0,
                    _ => self.matches,
                };
                let next: Next = find_next(step, signal, self.snapshot, matches);
                self.matches = matches;
                let mut error: Option<AppError> = None;
                match event {
                    Event::Copied(Ok(o)) => {
                        self.copied = o.copied_manifest;
                    },
                    Event::Copied(Err(e)) => {
                        error = Some(e);
                    },
                    Event::Done(Err(e)) => {
                        error = Some(e);
                    },
                    Event::Listed(Err(e)) => {
                        error = Some(e);
                    },
                    _ => {},
                }
                assert(error == event_error(ev));
                if step == Step::Recycle {
                    match &error {
                        Some(e) => {
                            self.note = Some(e.describe());
                        },
                        None => {},
                    }
                }
                match next {
                    Next::Go(t) => {
                        self.phase = Phase::At(t);
                        if t == Step::Record {
                            self.created_at = now;
                        }
                    },
                    Next::Fail(f) => {
                        self.phase = find_failure_phase(f);
                        self.failure = Some(f);
                        self.error = error;
                    },
                    Next::Finish => {
                        self.phase = Phase::Ended;
                    },
                }
                assert(self@ == after_event(s0, ev, now@));
            },
            Phase::Unwinding(f, i) => {
                self.phase = if i < 255 && find_cleanup(f, i + 1).is_some() {
                    Phase::Unwinding(f, i + 1)
                } else {
                    find_after_cleanup(f)
                };
            },
            Phase::Closing(_) => {
                self.phase = Phase::Ended;
                match event {
                    Event::Done(Err(e)) => {
                        self.error = Some(e);
                        self.journal_broken = true;
                    },
                    _ => {},
                }
            },
            Phase::Ended => {},
        }
    }

    /// Takes in what became of the last action.
    pub fn advance(&mut self, event: Event)
        requires
            old(self).wf(),
            answers(old(self).action_spec(), event),
        ensures
            final(self).wf(),
            exists|now: Seq<char>|
                is_utc_time(now) && final(self)@ == #[trigger] after_event(old(self)@, event, now),
    {
        self.advance_at(event, now_iso());
    }

    /// What is to be done next.
    pub open spec fn action_spec(&self) -> Action {
        phase_action(self@.phase)
    }

    /// The record of the migration with the given status.
    pub fn record(&self, plan: &MigratePlan, status: MigrationStatus) -> (r: Migration)
        ensures
            r@ == record_of_plan(*plan, self@.created_at, status, self@.note),
    {
        let r = Migration {
            id: plan.migration_id.clone(),
            schema_version: 1,
            source: replaced_char(plan.src.as_str(), '/', '\\'),
            target: replaced_char(plan.target.as_str(), '/', '\\'),
            old_path: replaced_char(plan.old_path.as_str(), '/', '\\'),
            preset: copy_opt(&plan.preset_id),
            created_at: self.created_at.clone(),
            status,
            source_volume_serial: plan.source_volume_serial.clone(),
            target_volume_serial: plan.target_volume_serial.clone(),
            recycle_bin_ref: String::new(),
            pending_cleanup: copy_opt(&self.note),
        };
        assert(r@.recycle_bin_ref =~= Seq::<char>::empty());
        r
    }

    /// The entry for the history, at the given time.
    pub fn history(&self, plan: &MigratePlan, now: String) -> (r: HistoryEntry)
        ensures
            r@ == (HistoryEntryView {
                op: "migrate"@,
                id: plan.migration_id@,
                src: plan.src@,
                dst: plan.target@,
                result: "ok"@,
                time: now@,
                duration_sec: 0,
            }),
    {
        history_entry(
            "migrate",
            plan.migration_id.as_str(),
            plan.src.as_str(),
            plan.target.as_str(),
            now,
        )
    }

    /// What is to be reported to the user.
    pub fn announcement(&self, task_id: &str) -> (r: Option<ProgressEvent>)
        ensures
            match announcement_of(self@.phase) {
                Some(a) => r is Some && r->0@ == (ProgressEventView {
                    task_id: task_id@,
                    stage: a.0,
                    percent: a.1,
                    message: a.2,
                    transfer: None,
                }),
                None => if self@.phase == Phase::Ended && self@.failure is None {
                    r is Some && r->0@ == (ProgressEventView {
                        task_id: task_id@,
                        stage: stage::CLEANING@,
                        percent: 100,
                        message: "迁移完成"@,
                        transfer: None,
                    })
                } else {
                    r is None
                },
            },
    {
        match self.phase {
            Phase::At(Step::PollBefore) => Some(
                ProgressEvent::new(task_id, stage::COPYING, 0, "准备复制到临时目录"),
            ),
            Phase::At(Step::MarkCopied) | Phase::Closing(Failure::Mismatch) => Some(
                ProgressEvent::new(task_id, stage::VERIFYING, 60, "校验 manifest"),
            ),
            Phase::At(Step::RenameSource) => Some(
                ProgressEvent::new(task_id, stage::RENAMING_SOURCE, 70, "改名源目录"),
            ),
            Phase::At(Step::MarkSnapshotSynced) => Some(
                ProgressEvent::new(task_id, stage::SYNCING, 80, "快照一致视图，跳过增量同步"),
            ),
            Phase::At(Step::ListOld) => Some(
                ProgressEvent::new(task_id, stage::SYNCING, 80, "检查复制期间的变化"),
            ),
            Phase::At(Step::MakeParent) => Some(
                ProgressEvent::new(task_id, stage::CREATING_JUNCTION, 90, "建立 junction"),
            ),
            Phase::At(Step::Record) => Some(
                ProgressEvent::new(task_id, stage::RECORDING, 95, "记录迁移映射"),
            ),
            Phase::At(Step::Recycle) => Some(
                ProgressEvent::new(task_id, stage::CLEANING, 99, "清理原目录"),
            ),
            Phase::Ended => if self.failure.is_none() {
                Some(ProgressEvent::new(task_id, stage::CLEANING, 100, "迁移完成"))
            } else {
                None
            },
            _ => None,
        }
    }

    /// How far the copy that is under way has come.
    pub fn copy_event(&self, task_id: &str, progress: &CopyProgress) -> (r: ProgressEvent)
        ensures
            r@ == if self@.phase == Phase::At(Step::CopyAgain) {
                transfer_report(
                    task_id@,
                    stage::SYNCING@,
                    (80, 90),
                    *progress,
                    "正在检查复制期间的变化"@,
                    "正在同步复制期间的变化"@,
                )
            } else {
                transfer_report(
                    task_id@,
                    stage::COPYING@,
                    (0, 60),
                    *progress,
                    "正在统计待复制内容"@,
                    "正在复制到迁移仓库"@,
                )
            },
    {
        if self.phase == Phase::At(Step::CopyAgain) {
            transfer_event(
                task_id,
                stage::SYNCING,
                (80, 90),
                progress,
                "正在检查复制期间的变化",
                "正在同步复制期间的变化",
            )
        } else {
            transfer_event(
                task_id,
                stage::COPYING,
                (0, 60),
                progress,
                "正在统计待复制内容",
                "正在复制到迁移仓库",
            )
        }
    }

    /// How the migration ended.
    pub fn finish(self, plan: &MigratePlan) -> (r: Result<
        (Migration, OperationOutcome),
        (AppError, OperationOutcome),
    >)
        requires
            self.wf(),
            self@.phase == Phase::Ended,
        ensures
            ends_as(self@, *plan, r),
    {
        match self.failure {
            None => {
                let status = if self.note.is_some() {
                    MigrationStatus::OldPendingDelete
                } else {
                    MigrationStatus::Active
                };
                Ok((self.record(plan, status), OperationOutcome::changed("migrated")))
            },
            Some(f) => {
                let reason: &str = if self.journal_broken {
                    close_reason_of(f)
                } else {
                    reason_of(f)
                };
                let outcome = OperationOutcome {
                    source_changed: source_is_changed(f),
                    reason: String::from_str(reason),
                };
                let own: Option<AppError> = if self.journal_broken {
                    None
                } else {
                    match f {
                        Failure::Reparse => Some(
                            AppError::Migrate(
                                String::from_str("源已是 reparse point，不能重复迁移"),
                            ),
                        ),
                        Failure::Cancelled => Some(AppError::Cancelled),
                        Failure::Mismatch => Some(
                            AppError::Migrate(
                                String::from_str("manifest 不一致，已保留 tmp 待人工确认"),
                            ),
                        ),
                        Failure::SyncMismatch => Some(
                            AppError::Migrate(String::from_str("增量后 manifest 不一致")),
                        ),
                        Failure::SourceChanged => Some(
                            AppError::Migrate(String::from_str("补传期间源发生变化")),
                        ),
                        Failure::LinkUnresolved => Some(
                            AppError::Junction(String::from_str("junction 解析失败")),
                        ),
                        _ => None,
                    }
                };
                match own {
                    Some(e) => Err((e, outcome)),
                    None => match self.error {
                        Some(e) => Err((e, outcome)),
                        None => {
                            assert(has_own_error(f));
                            Err((AppError::Cancelled, outcome))
                        },
                    },
                }
            },
        }
    }
}

// ---------------------------------------------------------------------------
// Laws
// ---------------------------------------------------------------------------

/// What happened in a run: each event with its time.
pub type Trace = Seq<(Event, Seq<char>)>;

/// The run after the first `n` events.
pub open spec fn run_at(snapshot: bool, trace: Trace, n: nat) -> RunView
    decreases n,
{
    if n == 0 {
        run_start(snapshot)
    } else {
        let s = run_at(snapshot, trace, (n - 1) as nat);
        after_event(s, trace[n - 1].0, trace[n - 1].1)
    }
}

/// Each of the first `n` events answers the action that was asked for.
pub open spec fn is_run(snapshot: bool, trace: Trace, n: nat) -> bool {
    n <= trace.len() && forall|i: int|
        0 <= i < n ==> answers(
            phase_action(run_at(snapshot, trace, i as nat).phase),
            (#[trigger] trace[i]).0,
        )
}

/// Action `a` was asked for and succeeded among the first `n` events.
pub open spec fn succeeded(snapshot: bool, trace: Trace, a: Action, n: nat) -> bool
    decreases n,
{
    n > 0 && (succeeded(snapshot, trace, a, (n - 1) as nat) || (phase_action(
        run_at(snapshot, trace, (n - 1) as nat).phase,
    ) == a && is_success(trace[n - 1].0)))
}

/// The step comes after the source was renamed.
spec fn after_rename(step: Step) -> bool {
    match step {
        Step::CheckSource | Step::Begin | Step::PollBefore | Step::Copy | Step::PollAfter
        | Step::MarkCopied | Step::MarkVerified | Step::MarkRenaming | Step::RenameSource => false,
        _ => true,
    }
}

/// The step comes after the link was made and found to resolve.
spec fn after_link(step: Step) -> bool {
    match step {
        Step::MarkLinked | Step::Record | Step::MarkRecorded | Step::Recycle | Step::MarkRecycled
        | Step::RecordPending | Step::WriteHistory | Step::Complete => true,
        _ => false,
    }
}

/// The step comes after the record was written.
spec fn after_record(step: Step) -> bool {
    match step {
        Step::MarkRecorded | Step::Recycle | Step::MarkRecycled | Step::RecordPending
        | Step::WriteHistory | Step::Complete => true,
        _ => false,
    }
}

/// What holds of every run, given which actions have succeeded.
#[verifier::opaque]
spec fn facts(s: RunView, renamed: bool, linked: bool, resolved: bool, recorded: bool) -> bool {
    &&& run_ok(s)
    &&& match s.phase {
        Phase::At(step) => {
            &&& after_rename(step) == renamed
            &&& step == Step::CheckLink ==> linked
            &&& after_link(step) ==> linked && resolved
            &&& after_record(step) ==> recorded
        },
        _ => match s.failure {
            Some(f) => is_changed(f) == renamed,
            None => renamed && linked && resolved && recorded,
        },
    }
}

/// What holds after the first `n` events of every run.
spec fn run_facts(snapshot: bool, trace: Trace, n: nat) -> bool {
    facts(
        run_at(snapshot, trace, n),
        succeeded(snapshot, trace, Action::Rename(Place::Source, Place::Old), n),
        succeeded(snapshot, trace, Action::CreateJunction, n),
        succeeded(snapshot, trace, Action::JunctionResolves, n),
        succeeded(snapshot, trace, Action::WriteRecord(MigrationStatus::Active), n),
    )
}

/// Which steps ask for the actions that matter.
proof fn lemma_step_actions(step: Step)
    ensures
        step_action(step) == Action::Rename(Place::Source, Place::Old) <==> step
            == Step::RenameSource,
        step_action(step) == Action::CreateJunction <==> step == Step::CreateLink,
        step_action(step) == Action::JunctionResolves <==> step == Step::CheckLink,
        step_action(step) == Action::WriteRecord(MigrationStatus::Active) <==> step == Step::Record,
        step_action(step) == Action::Recycle(Place::Old) <==> step == Step::Recycle,
{
}

/// Cleaning up asks for none of these.
proof fn lemma_unwinding_actions(f: Failure, i: u8)
    ensures
        cleanup_at(f, i) matches Some(a) ==> !matters(a),
        closing_action(f) matches Some(a) ==> !matters(a),
{
}

/// The actions that matter for the laws.
spec fn matters(a: Action) -> bool {
    a == Action::Rename(Place::Source, Place::Old) || a == Action::CreateJunction || a
        == Action::JunctionResolves || a == Action::WriteRecord(MigrationStatus::Active) || a
        == Action::Recycle(Place::Old)
}

/// The event reports a success.
pub open spec fn is_success(event: Event) -> bool {
    match event {
        Event::Answer(b) => b,
        Event::Done(r) => r is Ok,
        Event::Copied(r) => r is Ok,
        Event::Listed(r) => r is Ok,
    }
}

proof fn lemma_succeeded_step(snapshot: bool, trace: Trace, a: Action, m: nat)
    ensures
        succeeded(snapshot, trace, a, m + 1) == (succeeded(snapshot, trace, a, m) || (phase_action(
            run_at(snapshot, trace, m).phase,
        ) == a && is_success(trace[m as int].0))),
{
    assert(((m + 1) - 1) as nat == m);
}

/// Every run is in a state that a run can be in.
pub proof fn lemma_run_ok(snapshot: bool, trace: Trace, n: nat)
    requires
        is_run(snapshot, trace, n),
    ensures
        run_ok(run_at(snapshot, trace, n)),
{
    lemma_run_facts(snapshot, trace, n);
}

proof fn lemma_run_facts(snapshot: bool, trace: Trace, n: nat)
    requires
        is_run(snapshot, trace, n),
    ensures
        run_facts(snapshot, trace, n),
        run_ok(run_at(snapshot, trace, n)),
    decreases n,
{
    let link = Action::CreateJunction;
    let check = Action::JunctionResolves;
    let record = Action::WriteRecord(MigrationStatus::Active);
    let rename = Action::Rename(Place::Source, Place::Old);
    if n == 0 {
        reveal(facts);
        assert(!succeeded(snapshot, trace, rename, 0));
    } else {
        let m = (n - 1) as nat;
        lemma_run_facts(snapshot, trace, m);
        let s = run_at(snapshot, trace, m);
        let event = trace[m as int].0;
        let now = trace[m as int].1;
        assert(answers(phase_action(s.phase), event));
        lemma_succeeded_step(snapshot, trace, link, m);
        lemma_succeeded_step(snapshot, trace, check, m);
        lemma_succeeded_step(snapshot, trace, record, m);
        lemma_succeeded_step(snapshot, trace, rename, m);
        assert(m + 1 == n);
        lemma_fact_step(
            s,
            event,
            now,
            succeeded(snapshot, trace, rename, m),
            succeeded(snapshot, trace, link, m),
            succeeded(snapshot, trace, check, m),
            succeeded(snapshot, trace, record, m),
        );
    }
}

/// The action was asked for and succeeded, before or now.
spec fn done_by_now(before: bool, s: RunView, a: Action, event: Event) -> bool {
    before || (phase_action(s.phase) == a && is_success(event))
}

proof fn lemma_fact_step(
    s: RunView,
    event: Event,
    now: Seq<char>,
    renamed: bool,
    linked: bool,
    resolved: bool,
    recorded: bool,
)
    requires
        facts(s, renamed, linked, resolved, recorded),
        answers(phase_action(s.phase), event),
    ensures
        facts(
            after_event(s, event, now),
            done_by_now(renamed, s, Action::Rename(Place::Source, Place::Old), event),
            done_by_now(linked, s, Action::CreateJunction, event),
            done_by_now(resolved, s, Action::JunctionResolves, event),
            done_by_now(recorded, s, Action::WriteRecord(MigrationStatus::Active), event),
        ),
        run_ok(after_event(s, event, now)),
{
    reveal(facts);
    match s.phase {
        Phase::At(step) => {
            lemma_step_actions(step);
            lemma_step(s, event, now, step);
        },
        Phase::Unwinding(f, i) => {
            lemma_unwinding_actions(f, i);
            lemma_unwind(s, event, now);
        },
        Phase::Closing(f) => {
            lemma_unwinding_actions(f, 0);
            lemma_unwind(s, event, now);
        },
        Phase::Ended => {},
    }
}

/// Cleaning up stays with its failure.
proof fn lemma_unwind(s: RunView, event: Event, now: Seq<char>)
    requires
        run_ok(s),
        s.phase is Unwinding || s.phase is Closing,
    ensures
        run_ok(after_event(s, event, now)),
        !(after_event(s, event, now).phase is At),
        after_event(s, event, now).failure == s.failure,
        s.failure is Some,
{
}

/// One step of a run.
proof fn lemma_step(s: RunView, event: Event, now: Seq<char>, step: Step)
    requires
        run_ok(s),
        s.phase == Phase::At(step),
        answers(step_action(step), event),
    ensures
        run_ok(after_event(s, event, now)),
        match after_event(s, event, now).phase {
            Phase::At(next) => {
                &&& after_rename(next) == (after_rename(step) || step == Step::RenameSource)
                &&& step == Step::RenameSource ==> (event matches Event::Done(r) && r is Ok)
                &&& next == Step::CheckLink ==> step == Step::CreateLink && (
                event matches Event::Done(r) && r is Ok)
                &&& after_link(next) && !after_link(step) ==> step == Step::CheckLink && event
                    == Event::Answer(true)
                &&& after_record(next) && !after_record(step) ==> step == Step::Record && (
                event matches Event::Done(r) && r is Ok)
            },
            _ => match after_event(s, event, now).failure {
                Some(f) => is_changed(f) == after_rename(step) && (step == Step::RenameSource ==> (
                event matches Event::Done(r) && r is Err)),
                None => after_record(step) && after_link(step) && after_rename(step),
            },
        },
{
}

/// The old data is moved to the recycle bin only after the link was made, was
/// found to resolve, and the migration was recorded.
pub proof fn law_old_data_goes_last(snapshot: bool, trace: Trace, n: nat)
    requires
        is_run(snapshot, trace, n),
        phase_action(run_at(snapshot, trace, n).phase) == Action::Recycle(Place::Old),
    ensures
        succeeded(snapshot, trace, Action::CreateJunction, n),
        succeeded(snapshot, trace, Action::JunctionResolves, n),
        succeeded(snapshot, trace, Action::WriteRecord(MigrationStatus::Active), n),
{
    lemma_run_facts(snapshot, trace, n);
    reveal(facts);
    match run_at(snapshot, trace, n).phase {
        Phase::At(step) => {
            lemma_step_actions(step);
        },
        Phase::Unwinding(f, i) => {
            lemma_unwinding_actions(f, i);
        },
        Phase::Closing(f) => {
            lemma_unwinding_actions(f, 0);
        },
        Phase::Ended => {},
    }
}

/// Whatever happens, nothing but the temporary copy is ever deleted, and
/// nothing but the old data is ever moved to the recycle bin.
pub proof fn law_only_the_copy_is_deleted(phase: Phase, place: Place)
    ensures
        phase_action(phase) == Action::RemoveTree(place) ==> place == Place::Tmp,
        phase_action(phase) == Action::Recycle(place) ==> place == Place::Old,
{
}

/// A migration that failed reports that the source has changed exactly where
/// the source had been renamed.
pub proof fn law_change_is_reported_iff_source_was_renamed(snapshot: bool, trace: Trace, n: nat)
    requires
        is_run(snapshot, trace, n),
        run_at(snapshot, trace, n).phase == Phase::Ended,
        run_at(snapshot, trace, n).failure is Some,
    ensures
        is_changed(run_at(snapshot, trace, n).failure->0) == succeeded(
            snapshot,
            trace,
            Action::Rename(Place::Source, Place::Old),
            n,
        ),
{
    lemma_run_facts(snapshot, trace, n);
    reveal(facts);
}

/// A migration that succeeded has renamed the source, made a link that
/// resolves, and recorded the migration.
pub proof fn law_success_means_linked_and_recorded(snapshot: bool, trace: Trace, n: nat)
    requires
        is_run(snapshot, trace, n),
        run_at(snapshot, trace, n).phase == Phase::Ended,
        run_at(snapshot, trace, n).failure is None,
    ensures
        succeeded(snapshot, trace, Action::Rename(Place::Source, Place::Old), n),
        succeeded(snapshot, trace, Action::CreateJunction, n),
        succeeded(snapshot, trace, Action::JunctionResolves, n),
        succeeded(snapshot, trace, Action::WriteRecord(MigrationStatus::Active), n),
{
    lemma_run_facts(snapshot, trace, n);
    reveal(facts);
}

/// Where catching up with the source or making the link fails, the source is
/// given its name back.
pub proof fn law_failed_switch_gives_the_source_back(f: Failure)
    requires
        f == Failure::ListFailed || f == Failure::ClearFailed || f == Failure::SyncStopped || f
            == Failure::SyncFailed || f
            == Failure::SyncMismatch || f == Failure::SourceChanged || f == Failure::LinkFailed
            || f == Failure::LinkUnresolved,
    ensures
        exists|i: u8| #[trigger]
            cleanup_at(f, i) == Some(Action::Rename(Place::Old, Place::Source)),
{
    assert(cleanup_at(f, 0) == Some(Action::Rename(Place::Old, Place::Source)) || cleanup_at(f, 2)
        == Some(Action::Rename(Place::Old, Place::Source)));
}

/// A copy that fails or is stopped before the source was touched is removed,
/// and the journal is told how it ended.
pub proof fn law_failed_copy_leaves_nothing(f: Failure)
    requires
        f == Failure::Cancelled || f == Failure::CopyStopped || f == Failure::CopyFailed,
    ensures
        !is_changed(f),
        enter_failure(f) == Phase::Unwinding(f, 0),
        cleanup_at(f, 0) == Some(Action::RemoveTree(Place::Tmp)),
        closing_action(f) == Some(
            if f == Failure::CopyFailed {
                Action::JournalFail(FailNote::CopyFailed)
            } else {
                Action::JournalCancel
            },
        ),
{
}

/// Unless the user stops the migration or the first copy fails, what was
/// copied is kept for inspection.
pub proof fn law_failed_check_keeps_the_copy(f: Failure, i: u8, place: Place)
    requires
        f != Failure::Cancelled,
        f != Failure::CopyStopped,
        f != Failure::CopyFailed,
        f != Failure::SyncStopped,
    ensures
        cleanup_at(f, i) != Some(Action::RemoveTree(place)),
        closing_action(f) != Some(Action::RemoveTree(place)),
{
}

/// A link that could not be recorded stays in the journal as unfinished, and
/// its old data stays where it is.
pub proof fn law_unrecorded_link_stays_pending(i: u8)
    ensures
        closing_action(Failure::RecordFailed) == Some(Action::JournalMark(Mark::PendingRecord)),
        cleanup_at(Failure::RecordFailed, i) matches Some(a) ==> a == Action::WriteRecord(
            MigrationStatus::OldPendingDelete,
        ),
{
}

/// The journal holds the mark.
spec fn noted(snapshot: bool, trace: Trace, m: Mark, n: nat) -> bool {
    succeeded(snapshot, trace, Action::JournalMark(m), n)
}

/// The place of a step in the order of the steps, from one on.
#[verifier::opaque]
spec fn rank(step: Step) -> int {
    29 - steps_left(step)
}

/// A run passes from below place `k` to it only by this mark.
spec fn is_gate(m: Mark, k: int) -> bool {
    ||| m == Mark::Copied && k == 7
    ||| m == Mark::ManifestOk && k == 8
    ||| m == Mark::RenamingSource && k == 9
    ||| m == Mark::SourceRenamed && k == 11
    ||| m == Mark::IncrementalSynced && k == 17
    ||| m == Mark::JunctionCreated && k == 22
    ||| m == Mark::RecordWritten && k == 24
}

/// The places of the steps that matter.
proof fn lemma_ranks()
    ensures
        rank(Step::CheckSource) == 1,
        rank(Step::RenameSource) == 9,
        rank(Step::MarkSnapshotSynced) == 11,
        rank(Step::ListOld) == 12,
        rank(Step::ListAgain) == 15,
        rank(Step::CreateLink) == 19,
        rank(Step::Record) == 22,
        rank(Step::Recycle) == 24,
{
    reveal(rank);
}

proof fn lemma_mark(snapshot: bool, trace: Trace, n: nat, mark: Mark, k: int)
    requires
        is_run(snapshot, trace, n),
        is_gate(mark, k),
    ensures
        run_at(snapshot, trace, n).phase matches Phase::At(step) ==> rank(step) >= k ==> noted(
            snapshot,
            trace,
            mark,
            n,
        ),
    decreases n,
{
    lemma_ranks();
    if n > 0 {
        let m = (n - 1) as nat;
        lemma_mark(snapshot, trace, m, mark, k);
        lemma_run_facts(snapshot, trace, m);
        assert(m + 1 == n);
        let s = run_at(snapshot, trace, m);
        let event = trace[m as int].0;
        assert(answers(phase_action(s.phase), event));
        lemma_succeeded_step(snapshot, trace, Action::JournalMark(mark), m);
        match s.phase {
            Phase::At(step) => {
                lemma_mark_step(s, event, trace[m as int].1, step, mark, k);
            },
            _ => {
                lemma_stays_down(s, event, trace[m as int].1);
            },
        }
    }
}

/// A run that failed or ended goes to no step again.
proof fn lemma_stays_down(s: RunView, event: Event, now: Seq<char>)
    requires
        !(s.phase is At),
    ensures
        !(after_event(s, event, now).phase is At),
{
}

/// A run passes a mark only where the journal took it.
proof fn lemma_mark_step(
    s: RunView,
    event: Event,
    now: Seq<char>,
    step: Step,
    mark: Mark,
    k: int,
)
    requires
        run_ok(s),
        s.phase == Phase::At(step),
        answers(step_action(step), event),
        is_gate(mark, k),
    ensures
        after_event(s, event, now).phase matches Phase::At(next) ==> (rank(next) >= k > rank(step)
            ==> step_action(step) == Action::JournalMark(mark) && is_success(event)),
{
    reveal(rank);
}

/// The journal is told before anything that cannot simply be undone: before
/// the source is renamed, before it is replaced by a link, before the migration
/// is recorded, and before the old data goes.
pub proof fn law_journal_is_told_first(snapshot: bool, trace: Trace, n: nat)
    requires
        is_run(snapshot, trace, n),
    ensures
        ({
            let a = phase_action(run_at(snapshot, trace, n).phase);
            &&& a == Action::Rename(Place::Source, Place::Old) ==> succeeded(
                snapshot,
                trace,
                Action::JournalMark(Mark::ManifestOk),
                n,
            ) && succeeded(snapshot, trace, Action::JournalMark(Mark::RenamingSource), n)
            &&& a == Action::CreateJunction ==> succeeded(
                snapshot,
                trace,
                Action::JournalMark(Mark::SourceRenamed),
                n,
            ) && succeeded(snapshot, trace, Action::JournalMark(Mark::IncrementalSynced), n)
            &&& a == Action::WriteRecord(MigrationStatus::Active) ==> succeeded(
                snapshot,
                trace,
                Action::JournalMark(Mark::JunctionCreated),
                n,
            )
            &&& a == Action::Recycle(Place::Old) ==> succeeded(
                snapshot,
                trace,
                Action::JournalMark(Mark::RecordWritten),
                n,
            )
        }),
{
    lemma_ranks();
    lemma_mark(snapshot, trace, n, Mark::ManifestOk, 8);
    lemma_mark(snapshot, trace, n, Mark::RenamingSource, 9);
    lemma_mark(snapshot, trace, n, Mark::SourceRenamed, 11);
    lemma_mark(snapshot, trace, n, Mark::IncrementalSynced, 17);
    lemma_mark(snapshot, trace, n, Mark::JunctionCreated, 22);
    lemma_mark(snapshot, trace, n, Mark::RecordWritten, 24);
    match run_at(snapshot, trace, n).phase {
        Phase::At(step) => {
            lemma_step_actions(step);
        },
        Phase::Unwinding(f, i) => {
            lemma_unwinding_actions(f, i);
        },
        Phase::Closing(f) => {
            lemma_unwinding_actions(f, 0);
        },
        Phase::Ended => {},
    }
}

/// What the last listing among the first `n` events found.
pub open spec fn last_listed(trace: Trace, n: nat) -> Option<Seq<ManifestEntryView>>
    decreases n,
{
    if n == 0 {
        None
    } else {
        listed_after(last_listed(trace, (n - 1) as nat), trace[n - 1].0)
    }
}

/// What the last listing found, after one more event.
pub open spec fn listed_after(listed: Option<Seq<ManifestEntryView>>, event: Event) -> Option<
    Seq<ManifestEntryView>,
> {
    match event {
        Event::Listed(Ok(m)) => Some(entries_view(m.entries@)),
        _ => listed,
    }
}

/// The copy is what the source held when it was last looked at, as far as the
/// run has come.
#[verifier::opaque]
spec fn on_track(s: RunView, listed: Option<Seq<ManifestEntryView>>) -> bool {
    match s.phase {
        Phase::At(step) => {
            &&& 6 <= rank(step) <= 12 || step == Step::ListAgain ==> s.matches
            &&& step == Step::MarkSnapshotSynced ==> s.snapshot
            &&& rank(step) >= 16 ==> s.matches && (s.snapshot || (listed is Some && same_tree(
                s.copied,
                listed->0,
            )))
        },
        _ => true,
    }
}

proof fn lemma_caught_up(snapshot: bool, trace: Trace, n: nat)
    requires
        is_run(snapshot, trace, n),
    ensures
        run_at(snapshot, trace, n).snapshot == snapshot,
        on_track(run_at(snapshot, trace, n), last_listed(trace, n)),
    decreases n,
{
    if n == 0 {
        reveal(on_track);
        lemma_ranks();
    } else {
        let m = (n - 1) as nat;
        lemma_caught_up(snapshot, trace, m);
        lemma_run_facts(snapshot, trace, m);
        let s = run_at(snapshot, trace, m);
        let event = trace[m as int].0;
        assert(answers(phase_action(s.phase), event));
        assert(last_listed(trace, n) == listed_after(last_listed(trace, m), event));
        lemma_track_step(s, last_listed(trace, m), event, trace[m as int].1);
    }
}

proof fn lemma_track_step(
    s: RunView,
    listed: Option<Seq<ManifestEntryView>>,
    event: Event,
    now: Seq<char>,
)
    requires
        run_ok(s),
        answers(phase_action(s.phase), event),
        on_track(s, listed),
    ensures
        after_event(s, event, now).snapshot == s.snapshot,
        on_track(after_event(s, event, now), listed_after(listed, event)),
{
    reveal(on_track);
    lemma_ranks();
    match s.phase {
        Phase::At(step) => {
            lemma_catch_up_step(s, event, now, step);
        },
        _ => {
            lemma_stays_down(s, event, now);
        },
    }
}

/// A run comes to its later steps only by a listing that found what was copied.
proof fn lemma_catch_up_step(s: RunView, event: Event, now: Seq<char>, step: Step)
    requires
        run_ok(s),
        s.phase == Phase::At(step),
        answers(step_action(step), event),
    ensures
        ({
            let t = after_event(s, event, now);
            &&& t.snapshot == s.snapshot
            &&& t.phase matches Phase::At(next) ==> {
                &&& rank(next) == 6 ==> t.matches
                &&& next == Step::ListAgain ==> t.matches
                &&& 6 < rank(next) <= 12 ==> 6 <= rank(step) <= 12 && t.matches == s.matches
                &&& next == Step::MarkSnapshotSynced ==> s.snapshot
                &&& rank(next) >= 16 && rank(step) < 16 ==> {
                    ||| step == Step::MarkSnapshotSynced && t.matches == s.matches
                    ||| (step == Step::ListOld || step == Step::ListAgain) && t.matches == s.matches
                        && t.copied == s.copied && (event matches Event::Listed(Ok(m)) && same_tree(
                        s.copied,
                        entries_view(m.entries@),
                    ))
                }
                &&& rank(step) >= 16 ==> rank(next) >= 16 && t.matches == s.matches && t.copied
                    == s.copied && !(event is Listed)
            }
        }),
{
    reveal(rank);
}

/// The source is replaced by a link only to a whole copy: the last copy wrote
/// what it read, and, unless it was read from a shadow copy, this is what the
/// source held when it was last looked at, after it was renamed.
pub proof fn law_linked_data_is_complete(snapshot: bool, trace: Trace, n: nat)
    requires
        is_run(snapshot, trace, n),
        phase_action(run_at(snapshot, trace, n).phase) == Action::CreateJunction,
    ensures
        run_at(snapshot, trace, n).matches,
        !snapshot ==> last_listed(trace, n) is Some && same_tree(
            run_at(snapshot, trace, n).copied,
            last_listed(trace, n)->0,
        ),
{
    lemma_ranks();
    lemma_caught_up(snapshot, trace, n);
    reveal(on_track);
    match run_at(snapshot, trace, n).phase {
        Phase::At(step) => {
            lemma_step_actions(step);
        },
        Phase::Unwinding(f, i) => {
            lemma_unwinding_actions(f, i);
        },
        Phase::Closing(f) => {
            lemma_unwinding_actions(f, 0);
        },
        Phase::Ended => {},
    }
}

/// The number of actions that a run can still ask for.
pub open spec fn actions_left(phase: Phase) -> nat {
    match phase {
        Phase::At(step) => steps_left(step) + 6,
        Phase::Unwinding(_, i) => if i >= 4 {
            2
        } else {
            (6 - i) as nat
        },
        Phase::Closing(_) => 1,
        Phase::Ended => 0,
    }
}

/// The number of steps from a step on.
pub open spec fn steps_left(step: Step) -> nat {
    match step {
        Step::CheckSource => 28,
        Step::Begin => 27,
        Step::PollBefore => 26,
        Step::Copy => 25,
        Step::PollAfter => 24,
        Step::MarkCopied => 23,
        Step::MarkVerified => 22,
        Step::MarkRenaming => 21,
        Step::RenameSource => 20,
        Step::MarkRenamed => 19,
        Step::MarkSnapshotSynced => 18,
        Step::ListOld => 17,
        Step::ClearTmp => 16,
        Step::CopyAgain => 15,
        Step::ListAgain => 14,
        Step::MarkSynced => 13,
        Step::MakeParent => 12,
        Step::RenameTmp => 11,
        Step::CreateLink => 10,
        Step::CheckLink => 9,
        Step::MarkLinked => 8,
        Step::Record => 7,
        Step::MarkRecorded => 6,
        Step::Recycle => 5,
        Step::MarkRecycled => 4,
        Step::RecordPending => 3,
        Step::WriteHistory => 2,
        Step::Complete => 1,
    }
}

/// A migration comes to an end, whatever becomes of its actions.
pub proof fn law_run_ends(s: RunView, event: Event, now: Seq<char>)
    requires
        run_ok(s),
        s.phase != Phase::Ended,
        answers(phase_action(s.phase), event),
    ensures
        actions_left(after_event(s, event, now).phase) < actions_left(s.phase),
{
}

/// The number of actions that are left never grows, and falls until the run has
/// ended.
proof fn lemma_actions_fall(snapshot: bool, trace: Trace, i: nat, n: nat)
    requires
        is_run(snapshot, trace, n),
        i <= n,
    ensures
        actions_left(run_at(snapshot, trace, n).phase) <= actions_left(run_at(snapshot, trace, i).phase),
        i < n && run_at(snapshot, trace, i).phase != Phase::Ended ==> actions_left(
            run_at(snapshot, trace, n).phase,
        ) < actions_left(run_at(snapshot, trace, i).phase),
    decreases n,
{
    if i < n {
        let m = (n - 1) as nat;
        let s = run_at(snapshot, trace, m);
        lemma_actions_fall(snapshot, trace, i, m);
        lemma_run_facts(snapshot, trace, m);
        assert(answers(phase_action(s.phase), trace[m as int].0));
        lemma_action_falls(s, trace[m as int].0, trace[m as int].1);
    }
}

proof fn lemma_action_falls(s: RunView, event: Event, now: Seq<char>)
    requires
        run_ok(s),
        answers(phase_action(s.phase), event),
    ensures
        actions_left(after_event(s, event, now).phase) <= actions_left(s.phase),
        s.phase != Phase::Ended ==> actions_left(after_event(s, event, now).phase) < actions_left(
            s.phase,
        ),
{
    if s.phase != Phase::Ended {
        law_run_ends(s, event, now);
    }
}

/// Only one step asks for the recycle bin, and only the temporary copy is ever
/// deleted.
proof fn lemma_recycling_step(phase: Phase)
    ensures
        phase_action(phase) is Recycle ==> phase == Phase::At(Step::Recycle) && phase_action(phase)
            == Action::Recycle(Place::Old),
        phase_action(phase) matches Action::RemoveTree(place) ==> place == Place::Tmp,
{
}

/// In a whole run the recycle bin is asked for at most once, only for the old data,
/// and only after the link was made, was found to resolve, and the migration was
/// recorded as active. Nothing but the temporary copy is ever deleted.
pub proof fn law_old_data_goes_once_and_last(snapshot: bool, trace: Trace, n: nat, i: nat, j: nat)
    requires
        is_run(snapshot, trace, n),
        i <= n,
        j <= n,
    ensures
        ({
            let a = phase_action(run_at(snapshot, trace, i).phase);
            let b = phase_action(run_at(snapshot, trace, j).phase);
            &&& a is Recycle && b is Recycle ==> i == j
            &&& a is Recycle ==> a == Action::Recycle(Place::Old) && succeeded(
                snapshot,
                trace,
                Action::CreateJunction,
                i,
            ) && succeeded(snapshot, trace, Action::JunctionResolves, i) && succeeded(
                snapshot,
                trace,
                Action::WriteRecord(MigrationStatus::Active),
                i,
            )
            &&& a matches Action::RemoveTree(place) ==> place == Place::Tmp
        }),
{
    lemma_recycling_step(run_at(snapshot, trace, i).phase);
    lemma_recycling_step(run_at(snapshot, trace, j).phase);
    if phase_action(run_at(snapshot, trace, i).phase) is Recycle {
        assert(is_run(snapshot, trace, i));
        law_old_data_goes_last(snapshot, trace, i);
        if phase_action(run_at(snapshot, trace, j).phase) is Recycle {
            if i < j {
                assert(is_run(snapshot, trace, j));
                lemma_actions_fall(snapshot, trace, i, j);
            } else if j < i {
                lemma_actions_fall(snapshot, trace, j, i);
            }
        }
    }
}

} // verus!
