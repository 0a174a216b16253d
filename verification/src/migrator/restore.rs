//! Moving a directory back from the repository.

use super::migrate::{event_error, is_success};
use super::plan::{
    answers, error_signal, history_entry, transfer_event, transfer_report, Action, Event, FailNote,
    Mark, Place, Signal,
};
use super::stage;
use crate::error::{prefixed_text, AppError};
use crate::extension::{with_extension, with_new_extension};
use crate::file_ops::{
    diff_manifests, entries_view, same_tree, CopyProgress, Manifest, ManifestEntryView,
};
use crate::journal::{begins, Journal};
use crate::models::{
    HistoryEntry, HistoryEntryView, Migration, MigrationStatus, MigrationView, OperationOutcome,
    ProgressEvent, ProgressEventView,
};
use vstd::prelude::*;
use vstd::string::*;

verus! {

/// A step of a restoration.
#[derive(Debug, Clone, Copy, PartialEq, Eq, Structural)]
pub enum Step {
    Begin,
    /// The link must still lead to the data.
    CheckLink,
    PollBefore,
    Copy,
    ListSource,
    ListCopy,
    MarkCopied,
    MarkVerified,
    /// From here on the source is no link any more.
    RemoveLink,
    MarkRemoved,
    Switch,
    MarkSwitched,
    /// Only now the data in the repository may go.
    RecycleTarget,
    MarkRecycled,
    RemoveRecord,
    /// The data in the repository could not be removed.
    RecordPending,
    WriteHistory,
    Complete,
}

/// Why a restoration ends before its time.
#[derive(Debug, Clone, Copy, PartialEq, Eq, Structural)]
pub enum Failure {
    BeginRefused,
    LinkInvalid,
    Cancelled,
    CopyStopped,
    CopyFailed,
    ListFailed,
    Mismatch,
    JournalEarly,
    RemoveLinkFailed,
    JournalLate,
    SwitchFailed,
    RecordFailed,
    HistoryFailed,
    CompleteFailed,
}

/// Where a restoration stands.
#[derive(Debug, Clone, Copy, PartialEq, Eq, Structural)]
pub enum Phase {
    /// On its way.
    At(Step),
    /// Failed; so many of the actions that clean up have been done.
    Unwinding(Failure, u8),
    /// Failed and cleaned up; the journal is still to be told.
    Closing(Failure),
    Ended,
}

/// What is to be done at a step.
pub open spec fn step_action(step: Step) -> Action {
    match step {
        Step::Begin => Action::JournalBegin,
        Step::CheckLink => Action::JunctionResolves,
        Step::PollBefore => Action::PollCancel,
        Step::Copy => Action::CopyTree(Place::ReadRoot, Place::Tmp),
        Step::ListSource => Action::ListTree(Place::ReadRoot),
        Step::ListCopy => Action::ListTree(Place::Tmp),
        Step::MarkCopied => Action::JournalMark(Mark::RestoreCopied),
        Step::MarkVerified => Action::JournalMark(Mark::RestoreManifestOk),
        Step::RemoveLink => Action::RemoveJunction,
        Step::MarkRemoved => Action::JournalMark(Mark::JunctionRemoved),
        Step::Switch => Action::Rename(Place::Tmp, Place::Source),
        Step::MarkSwitched => Action::JournalMark(Mark::RestoreSwitched),
        Step::RecycleTarget => Action::Recycle(Place::Target),
        Step::MarkRecycled => Action::JournalMark(Mark::RestoreTargetRecycled),
        Step::RemoveRecord => Action::RemoveRecord,
        Step::RecordPending => Action::WriteRecord(MigrationStatus::TargetPendingDelete),
        Step::WriteHistory => Action::WriteHistory,
        Step::Complete => Action::JournalComplete,
    }
}

/// What is to be done at a step.
fn find_action(step: Step) -> (r: Action)
    ensures
        r == step_action(step),
{
    match step {
        Step::Begin => Action::JournalBegin,
        Step::CheckLink => Action::JunctionResolves,
        Step::PollBefore => Action::PollCancel,
        Step::Copy => Action::CopyTree(Place::ReadRoot, Place::Tmp),
        Step::ListSource => Action::ListTree(Place::ReadRoot),
        Step::ListCopy => Action::ListTree(Place::Tmp),
        Step::MarkCopied => Action::JournalMark(Mark::RestoreCopied),
        Step::MarkVerified => Action::JournalMark(Mark::RestoreManifestOk),
        Step::RemoveLink => Action::RemoveJunction,
        Step::MarkRemoved => Action::JournalMark(Mark::JunctionRemoved),
        Step::Switch => Action::Rename(Place::Tmp, Place::Source),
        Step::MarkSwitched => Action::JournalMark(Mark::RestoreSwitched),
        Step::RecycleTarget => Action::Recycle(Place::Target),
        Step::MarkRecycled => Action::JournalMark(Mark::RestoreTargetRecycled),
        Step::RemoveRecord => Action::RemoveRecord,
        Step::RecordPending => Action::WriteRecord(MigrationStatus::TargetPendingDelete),
        Step::WriteHistory => Action::WriteHistory,
        Step::Complete => Action::JournalComplete,
    }
}

/// What is to be done to clean up after a failure, one thing after the other.
/// What becomes of these actions does not matter.
pub open spec fn cleanup_at(f: Failure, i: u8) -> Option<Action> {
    match f {
        Failure::CopyStopped => if i == 0 {
            Some(Action::RemoveTree(Place::Tmp))
        } else {
            None
        },
        Failure::CopyFailed => if i == 0 {
            Some(Action::RemoveTree(Place::Tmp))
        } else {
            None
        },
        Failure::ListFailed => if i == 0 {
            Some(Action::RemoveTree(Place::Tmp))
        } else {
            None
        },
        Failure::Mismatch => if i == 0 {
            Some(Action::RemoveTree(Place::Tmp))
        } else {
            None
        },
        Failure::RemoveLinkFailed => if i == 0 {
            Some(Action::RemoveTree(Place::Tmp))
        } else {
            None
        },
        Failure::SwitchFailed => if i == 0 {
            Some(Action::CreateJunction)
        } else {
            None
        },
        _ => None,
    }
}

/// What is to be done to clean up after a failure, one thing after the other.
/// What becomes of these actions does not matter.
fn find_cleanup(f: Failure, i: u8) -> (r: Option<Action>)
    ensures
        r == cleanup_at(f, i),
{
    match f {
        Failure::CopyStopped => if i == 0 {
            Some(Action::RemoveTree(Place::Tmp))
        } else {
            None
        },
        Failure::CopyFailed => if i == 0 {
            Some(Action::RemoveTree(Place::Tmp))
        } else {
            None
        },
        Failure::ListFailed => if i == 0 {
            Some(Action::RemoveTree(Place::Tmp))
        } else {
            None
        },
        Failure::Mismatch => if i == 0 {
            Some(Action::RemoveTree(Place::Tmp))
        } else {
            None
        },
        Failure::RemoveLinkFailed => if i == 0 {
            Some(Action::RemoveTree(Place::Tmp))
        } else {
            None
        },
        Failure::SwitchFailed => if i == 0 {
            Some(Action::CreateJunction)
        } else {
            None
        },
        _ => None,
    }
}

/// What the journal is told about a failure. A task that it is told nothing about
/// stays in it for the recovery.
pub open spec fn closing_action(f: Failure) -> Option<Action> {
    match f {
        Failure::LinkInvalid => Some(Action::JournalFail(FailNote::LinkInvalid)),
        Failure::Cancelled => Some(Action::JournalCancel),
        Failure::CopyStopped => Some(Action::JournalCancel),
        Failure::CopyFailed => Some(Action::JournalFail(FailNote::RestoreCopyFailed)),
        Failure::ListFailed => Some(Action::JournalFail(FailNote::RestoreCopyFailed)),
        Failure::Mismatch => Some(Action::JournalFail(FailNote::ManifestMismatch)),
        Failure::RemoveLinkFailed => Some(Action::JournalFail(FailNote::RemoveLinkFailed)),
        Failure::SwitchFailed => Some(Action::JournalFail(FailNote::SwitchFailed)),
        _ => None,
    }
}

/// What the journal is told about a failure. A task that it is told nothing about
/// stays in it for the recovery.
fn find_closing(f: Failure) -> (r: Option<Action>)
    ensures
        r == closing_action(f),
{
    match f {
        Failure::LinkInvalid => Some(Action::JournalFail(FailNote::LinkInvalid)),
        Failure::Cancelled => Some(Action::JournalCancel),
        Failure::CopyStopped => Some(Action::JournalCancel),
        Failure::CopyFailed => Some(Action::JournalFail(FailNote::RestoreCopyFailed)),
        Failure::ListFailed => Some(Action::JournalFail(FailNote::RestoreCopyFailed)),
        Failure::Mismatch => Some(Action::JournalFail(FailNote::ManifestMismatch)),
        Failure::RemoveLinkFailed => Some(Action::JournalFail(FailNote::RemoveLinkFailed)),
        Failure::SwitchFailed => Some(Action::JournalFail(FailNote::SwitchFailed)),
        _ => None,
    }
}

/// What follows the cleaning up.
pub open spec fn after_cleanup(f: Failure) -> Phase {
    if closing_action(f).is_some() {
        Phase::Closing(f)
    } else {
        Phase::Ended
    }
}

/// What follows the cleaning up.
fn find_after_cleanup(f: Failure) -> (r: Phase)
    ensures
        r == after_cleanup(f),
{
    if find_closing(f).is_some() {
        Phase::Closing(f)
    } else {
        Phase::Ended
    }
}

/// What follows a failure.
pub open spec fn enter_failure(f: Failure) -> Phase {
    if cleanup_at(f, 0).is_some() {
        Phase::Unwinding(f, 0)
    } else {
        after_cleanup(f)
    }
}

/// What follows a failure.
fn find_failure_phase(f: Failure) -> (r: Phase)
    ensures
        r == enter_failure(f),
{
    if find_cleanup(f, 0).is_some() {
        Phase::Unwinding(f, 0)
    } else {
        find_after_cleanup(f)
    }
}

/// What follows an event.
#[derive(Debug, Clone, Copy, PartialEq, Eq, Structural)]
pub enum Next {
    Go(Step),
    Fail(Failure),
    Finish,
}

/// The next step, or the failure.
pub open spec fn go(signal: Signal, next: Step, f: Failure) -> Next {
    if signal == Signal::Good {
        Next::Go(next)
    } else {
        Next::Fail(f)
    }
}

/// The next step, or the failure.
fn follow(signal: Signal, next: Step, f: Failure) -> (r: Next)
    ensures
        r == go(signal, next, f),
{
    if signal == Signal::Good {
        Next::Go(next)
    } else {
        Next::Fail(f)
    }
}

/// Whether the source is no longer what it was when the failure came.
pub open spec fn is_changed(f: Failure) -> bool {
    match f {
        Failure::BeginRefused => false,
        Failure::LinkInvalid => false,
        Failure::Cancelled => false,
        Failure::CopyStopped => false,
        Failure::CopyFailed => false,
        Failure::ListFailed => false,
        Failure::Mismatch => false,
        Failure::JournalEarly => false,
        Failure::RemoveLinkFailed => false,
        Failure::JournalLate => true,
        Failure::SwitchFailed => true,
        Failure::RecordFailed => true,
        Failure::HistoryFailed => true,
        Failure::CompleteFailed => true,
    }
}

/// Whether the source is no longer what it was when the failure came.
fn source_is_changed(f: Failure) -> (r: bool)
    ensures
        r == is_changed(f),
{
    match f {
        Failure::BeginRefused => false,
        Failure::LinkInvalid => false,
        Failure::Cancelled => false,
        Failure::CopyStopped => false,
        Failure::CopyFailed => false,
        Failure::ListFailed => false,
        Failure::Mismatch => false,
        Failure::JournalEarly => false,
        Failure::RemoveLinkFailed => false,
        Failure::JournalLate => true,
        Failure::SwitchFailed => true,
        Failure::RecordFailed => true,
        Failure::HistoryFailed => true,
        Failure::CompleteFailed => true,
    }
}

/// The reason that is reported.
pub open spec fn reason_text(f: Failure) -> Seq<char> {
    match f {
        Failure::BeginRefused => "restore_rolled_back"@,
        Failure::LinkInvalid => "restore_rolled_back"@,
        Failure::Cancelled => "restore_canceled"@,
        Failure::CopyStopped => "restore_rolled_back"@,
        Failure::CopyFailed => "restore_rolled_back"@,
        Failure::ListFailed => "restore_rolled_back"@,
        Failure::Mismatch => "restore_rolled_back"@,
        Failure::JournalEarly => "restore_rolled_back"@,
        Failure::RemoveLinkFailed => "restore_rolled_back"@,
        Failure::JournalLate => "restore_partial"@,
        Failure::SwitchFailed => "restore_partial"@,
        Failure::RecordFailed => "restore_partial"@,
        Failure::HistoryFailed => "restore_partial"@,
        Failure::CompleteFailed => "restore_partial"@,
    }
}

/// The reason that is reported.
fn reason_of(f: Failure) -> (r: &'static str)
    ensures
        r@ == reason_text(f),
{
    match f {
        Failure::BeginRefused => "restore_rolled_back",
        Failure::LinkInvalid => "restore_rolled_back",
        Failure::Cancelled => "restore_canceled",
        Failure::CopyStopped => "restore_rolled_back",
        Failure::CopyFailed => "restore_rolled_back",
        Failure::ListFailed => "restore_rolled_back",
        Failure::Mismatch => "restore_rolled_back",
        Failure::JournalEarly => "restore_rolled_back",
        Failure::RemoveLinkFailed => "restore_rolled_back",
        Failure::JournalLate => "restore_partial",
        Failure::SwitchFailed => "restore_partial",
        Failure::RecordFailed => "restore_partial",
        Failure::HistoryFailed => "restore_partial",
        Failure::CompleteFailed => "restore_partial",
    }
}

/// The reason that is reported where the journal cannot be told.
pub open spec fn close_reason_text(f: Failure) -> Seq<char> {
    match f {
        Failure::BeginRefused => "restore_rolled_back"@,
        Failure::LinkInvalid => "restore_rolled_back"@,
        Failure::Cancelled => "restore_rolled_back"@,
        Failure::CopyStopped => "restore_rolled_back"@,
        Failure::CopyFailed => "restore_rolled_back"@,
        Failure::ListFailed => "restore_rolled_back"@,
        Failure::Mismatch => "restore_rolled_back"@,
        Failure::JournalEarly => "restore_rolled_back"@,
        Failure::RemoveLinkFailed => "restore_rolled_back"@,
        Failure::JournalLate => "restore_partial"@,
        Failure::SwitchFailed => "restore_partial"@,
        Failure::RecordFailed => "restore_partial"@,
        Failure::HistoryFailed => "restore_partial"@,
        Failure::CompleteFailed => "restore_partial"@,
    }
}

/// The reason that is reported where the journal cannot be told.
fn close_reason_of(f: Failure) -> (r: &'static str)
    ensures
        r@ == close_reason_text(f),
{
    match f {
        Failure::BeginRefused => "restore_rolled_back",
        Failure::LinkInvalid => "restore_rolled_back",
        Failure::Cancelled => "restore_rolled_back",
        Failure::CopyStopped => "restore_rolled_back",
        Failure::CopyFailed => "restore_rolled_back",
        Failure::ListFailed => "restore_rolled_back",
        Failure::Mismatch => "restore_rolled_back",
        Failure::JournalEarly => "restore_rolled_back",
        Failure::RemoveLinkFailed => "restore_rolled_back",
        Failure::JournalLate => "restore_partial",
        Failure::SwitchFailed => "restore_partial",
        Failure::RecordFailed => "restore_partial",
        Failure::HistoryFailed => "restore_partial",
        Failure::CompleteFailed => "restore_partial",
    }
}

/// What follows an event at a step. The record is removed only where the data in
/// the repository is gone; where it stays, the record says so.
pub open spec fn next_of(step: Step, signal: Signal) -> Next {
    match step {
        Step::Begin => go(signal, Step::CheckLink, Failure::BeginRefused),
        Step::CheckLink => go(signal, Step::PollBefore, Failure::LinkInvalid),
        Step::PollBefore => go(signal, Step::Copy, Failure::Cancelled),
        Step::Copy => if signal == Signal::Stopped {
            Next::Fail(Failure::CopyStopped)
        } else {
            go(signal, Step::ListSource, Failure::CopyFailed)
        },
        Step::ListSource => go(signal, Step::ListCopy, Failure::ListFailed),
        Step::ListCopy => if signal == Signal::Differs {
            Next::Fail(Failure::Mismatch)
        } else {
            go(signal, Step::MarkCopied, Failure::ListFailed)
        },
        Step::MarkCopied => go(signal, Step::MarkVerified, Failure::JournalEarly),
        Step::MarkVerified => go(signal, Step::RemoveLink, Failure::JournalEarly),
        Step::RemoveLink => go(signal, Step::MarkRemoved, Failure::RemoveLinkFailed),
        Step::MarkRemoved => go(signal, Step::Switch, Failure::JournalLate),
        Step::Switch => go(signal, Step::MarkSwitched, Failure::SwitchFailed),
        Step::MarkSwitched => go(signal, Step::RecycleTarget, Failure::JournalLate),
        Step::RecycleTarget => if signal == Signal::Good {
            Next::Go(Step::MarkRecycled)
        } else {
            Next::Go(Step::RecordPending)
        },
        Step::MarkRecycled => go(signal, Step::RemoveRecord, Failure::JournalLate),
        Step::RemoveRecord => go(signal, Step::WriteHistory, Failure::RecordFailed),
        Step::RecordPending => Next::Go(Step::WriteHistory),
        Step::WriteHistory => go(signal, Step::Complete, Failure::HistoryFailed),
        Step::Complete => if signal == Signal::Good {
            Next::Finish
        } else {
            Next::Fail(Failure::CompleteFailed)
        },
    }
}

/// What follows an event at a step. The record is removed only where the data in
/// the repository is gone; where it stays, the record says so.
fn find_next(step: Step, signal: Signal) -> (r: Next)
    ensures
        r == next_of(step, signal),
{
    match step {
        Step::Begin => follow(signal, Step::CheckLink, Failure::BeginRefused),
        Step::CheckLink => follow(signal, Step::PollBefore, Failure::LinkInvalid),
        Step::PollBefore => follow(signal, Step::Copy, Failure::Cancelled),
        Step::Copy => if signal == Signal::Stopped {
            Next::Fail(Failure::CopyStopped)
        } else {
            follow(signal, Step::ListSource, Failure::CopyFailed)
        },
        Step::ListSource => follow(signal, Step::ListCopy, Failure::ListFailed),
        Step::ListCopy => if signal == Signal::Differs {
            Next::Fail(Failure::Mismatch)
        } else {
            follow(signal, Step::MarkCopied, Failure::ListFailed)
        },
        Step::MarkCopied => follow(signal, Step::MarkVerified, Failure::JournalEarly),
        Step::MarkVerified => follow(signal, Step::RemoveLink, Failure::JournalEarly),
        Step::RemoveLink => follow(signal, Step::MarkRemoved, Failure::RemoveLinkFailed),
        Step::MarkRemoved => follow(signal, Step::Switch, Failure::JournalLate),
        Step::Switch => follow(signal, Step::MarkSwitched, Failure::SwitchFailed),
        Step::MarkSwitched => follow(signal, Step::RecycleTarget, Failure::JournalLate),
        Step::RecycleTarget => if signal == Signal::Good {
            Next::Go(Step::MarkRecycled)
        } else {
            Next::Go(Step::RecordPending)
        },
        Step::MarkRecycled => follow(signal, Step::RemoveRecord, Failure::JournalLate),
        Step::RemoveRecord => follow(signal, Step::WriteHistory, Failure::RecordFailed),
        Step::RecordPending => Next::Go(Step::WriteHistory),
        Step::WriteHistory => follow(signal, Step::Complete, Failure::HistoryFailed),
        Step::Complete => if signal == Signal::Good {
            Next::Finish
        } else {
            Next::Fail(Failure::CompleteFailed)
        },
    }
}

// ---------------------------------------------------------------------------
// Model
// ---------------------------------------------------------------------------

/// How an event counts at a step, where `listed` was found where the data is read.
pub open spec fn signal_of(step: Step, event: Event, listed: Seq<ManifestEntryView>) -> Signal {
    match event {
        Event::Answer(b) => if b == (step == Step::CheckLink) {
            Signal::Good
        } else {
            Signal::Bad
        },
        Event::Done(Ok(_)) => Signal::Good,
        Event::Done(Err(_)) => Signal::Bad,
        Event::Copied(Ok(_)) => Signal::Good,
        Event::Copied(Err(e)) => error_signal(e),
        Event::Listed(Ok(m)) => if step == Step::ListCopy && !same_tree(
            listed,
            entries_view(m.entries@),
        ) {
            Signal::Differs
        } else {
            Signal::Good
        },
        Event::Listed(Err(_)) => Signal::Bad,
    }
}

/// Model of a [`RestoreRun`].
pub struct RunView {
    pub phase: Phase,
    /// What lies where the data is read.
    pub listed: Seq<ManifestEntryView>,
    /// Why the restoration failed, if it did.
    pub failure: Option<Failure>,
    /// The error that came with the failure.
    pub error: Option<AppError>,
    /// The journal could not be told about the failure.
    pub journal_broken: bool,
}

/// The beginning of a restoration.
pub open spec fn run_start() -> RunView {
    RunView {
        phase: Phase::At(Step::Begin),
        listed: Seq::empty(),
        failure: None,
        error: None,
        journal_broken: false,
    }
}

/// What is to be done in a phase.
pub open spec fn phase_action(phase: Phase) -> Action {
    match phase {
        Phase::At(step) => step_action(step),
        Phase::Unwinding(f, i) => match cleanup_at(f, i) {
            Some(a) => a,
            None => Action::Stop,
        },
        Phase::Closing(f) => match closing_action(f) {
            Some(a) => a,
            None => Action::Stop,
        },
        Phase::Ended => Action::Stop,
    }
}

/// The restoration after an event.
pub open spec fn after_event(s: RunView, event: Event) -> RunView {
    match s.phase {
        Phase::At(step) => {
            let next = next_of(step, signal_of(step, event, s.listed));
            RunView {
                phase: match next {
                    Next::Go(t) => Phase::At(t),
                    Next::Fail(f) => enter_failure(f),
                    Next::Finish => Phase::Ended,
                },
                listed: match event {
                    Event::Listed(Ok(m)) => entries_view(m.entries@),
                    _ => s.listed,
                },
                failure: match next {
                    Next::Fail(f) => Some(f),
                    _ => s.failure,
                },
                error: match next {
                    Next::Fail(_) => event_error(event),
                    _ => s.error,
                },
                ..s
            }
        },
        Phase::Unwinding(f, i) => RunView {
            phase: if i < 255 && cleanup_at(f, (i + 1) as u8) is Some {
                Phase::Unwinding(f, (i + 1) as u8)
            } else {
                after_cleanup(f)
            },
            ..s
        },
        Phase::Closing(f) => match event {
            Event::Done(Err(e)) => RunView {
                phase: Phase::Ended,
                error: Some(e),
                journal_broken: true,
                ..s
            },
            _ => RunView { phase: Phase::Ended, ..s },
        },
        Phase::Ended => s,
    }
}

/// The error of a failed restoration: one of its own, or the one that came with
/// the failure, or the journal's.
pub open spec fn is_run_error(s: RunView, e: AppError) -> bool {
    if s.journal_broken {
        s.error == Some(e)
    } else {
        match s.failure->0 {
            Failure::LinkInvalid => e matches AppError::Junction(m) && m@
                == "junction 已失效，无法还原"@,
            Failure::Cancelled => e is Cancelled,
            Failure::Mismatch => e matches AppError::Migrate(m) && m@ == "还原校验不一致"@,
            _ => s.error == Some(e),
        }
    }
}

/// The failures that bring an error of their own.
pub open spec fn has_own_error(f: Failure) -> bool {
    f == Failure::LinkInvalid || f == Failure::Cancelled || f == Failure::Mismatch
}

/// The state is one that a run can be in.
pub open spec fn run_ok(s: RunView) -> bool {
    &&& match s.phase {
        Phase::At(_) => s.failure is None,
        Phase::Unwinding(f, i) => s.failure == Some(f) && cleanup_at(f, i) is Some,
        Phase::Closing(f) => s.failure == Some(f) && closing_action(f) is Some,
        Phase::Ended => true,
    }
    &&& s.journal_broken ==> s.phase == Phase::Ended && s.failure is Some && s.error is Some
    &&& s.failure matches Some(f) ==> has_own_error(f) || s.error is Some
}

/// The stage, the percentage and the message that are reported in a phase.
pub open spec fn announcement_of(phase: Phase) -> Option<(Seq<char>, u8, Seq<char>)> {
    match phase {
        Phase::At(Step::PollBefore) => Some((stage::COPYING@, 0, "复制回源盘临时目录"@)),
        Phase::At(Step::ListSource) => Some((stage::VERIFYING@, 50, "校验 manifest"@)),
        Phase::At(Step::RemoveLink) => Some((stage::REMOVING_JUNCTION@, 70, "删除 junction"@)),
        Phase::At(Step::Switch) => Some((stage::SWITCHING@, 85, "切换为普通目录"@)),
        Phase::At(Step::RecycleTarget) => Some((stage::CLEANING@, 95, "清理目标数据"@)),
        _ => None,
    }
}

/// `r` is how the run `s` ended.
pub open spec fn ends_as(
    s: RunView,
    r: Result<OperationOutcome, (AppError, OperationOutcome)>,
) -> bool {
    match s.failure {
        None => r is Ok && r->Ok_0.source_changed && r->Ok_0.reason@ == "restored"@,
        Some(f) => {
            &&& r is Err
            &&& is_run_error(s, r->Err_0.0)
            &&& r->Err_0.1.source_changed == is_changed(f)
            &&& r->Err_0.1.reason@ == if s.journal_broken {
                close_reason_text(f)
            } else {
                reason_text(f)
            }
        },
    }
}

/// The id of the task that restores a migration.
pub open spec fn task_of(id: Seq<char>) -> Seq<char> {
    "restore-"@ + id
}

// ---------------------------------------------------------------------------
// Executable
// ---------------------------------------------------------------------------

/// A restoration on its way.
pub struct RestoreRun {
    phase: Phase,
    listed: Manifest,
    failure: Option<Failure>,
    error: Option<AppError>,
    journal_broken: bool,
}

impl View for RestoreRun {
    type V = RunView;

    closed spec fn view(&self) -> RunView {
        RunView {
            phase: self.phase,
            listed: entries_view(self.listed.entries@),
            failure: self.failure,
            error: self.error,
            journal_broken: self.journal_broken,
        }
    }
}

impl RestoreRun {
    /// The run is in a state that it can be in.
    pub open spec fn wf(&self) -> bool {
        run_ok(self@)
    }

    /// What is to be done next.
    pub open spec fn action_spec(&self) -> Action {
        phase_action(self@.phase)
    }

    /// Begins a restoration.
    pub fn start() -> (r: Self)
        ensures
            r.wf(),
            r@ == run_start(),
    {
        let r = RestoreRun {
            phase: Phase::At(Step::Begin),
            listed: Manifest { root: String::new(), entries: Vec::new() },
                failure: None,
            error: None,
            journal_broken: false,
        };
        assert(r@.listed =~= Seq::<ManifestEntryView>::empty());
        r
    }

    /// The id of the task that restores a migration.
    pub fn task_id(mig: &Migration) -> (r: String)
        ensures
            r@ == task_of(mig.id@),
    {
        prefixed_text("restore-", mig.id.as_str())
    }

    /// The directory into which the data is copied before it is complete.
    pub fn restore_tmp(mig: &Migration) -> (r: String)
        ensures
            r@ == with_new_extension(mig.source@, "dayu-restore-"@ + mig.id@),
    {
        let ext = prefixed_text("dayu-restore-", mig.id.as_str());
        with_extension(mig.source.as_str(), ext.as_str())
    }

    /// Begins the task in the journal.
    pub fn begin_in(mig: &Migration, journal: &mut Journal) -> (r: Result<(), AppError>)
        ensures
            begins(
                old(journal)@,
                final(journal)@,
                r,
                task_of(mig.id@),
                mig.id@,
                "restore"@,
                mig.source@,
                mig.target@,
                with_new_extension(mig.source@, "dayu-restore-"@ + mig.id@),
                mig.old_path@,
            ),
    {
        let task: String = Self::task_id(mig);
        let tmp: String = Self::restore_tmp(mig);
        journal.begin(
            task.as_str(),
            mig.id.as_str(),
            "restore",
            mig.source.as_str(),
            mig.target.as_str(),
            tmp.as_str(),
            mig.old_path.as_str(),
        )
    }

    /// What is to be done next.
    pub fn action(&self) -> (r: Action)
        ensures
            r == phase_action(self@.phase),
    {
        match self.phase {
            Phase::At(step) => find_action(step),
            Phase::Unwinding(f, i) => match find_cleanup(f, i) {
                Some(a) => a,
                None => Action::Stop,
            },
            Phase::Closing(f) => match find_closing(f) {
                Some(a) => a,
                None => Action::Stop,
            },
            Phase::Ended => Action::Stop,
        }
    }

    /// How an event counts at a step.
    fn weigh(&self, step: Step, event: &Event) -> (r: Signal)
        ensures
            r == signal_of(step, *event, self@.listed),
    {
        match event {
            Event::Answer(b) => if *b == (step == Step::CheckLink) {
                Signal::Good
            } else {
                Signal::Bad
            },
            Event::Done(r) => match r {
                Ok(_) => Signal::Good,
                Err(_) => Signal::Bad,
            },
            Event::Copied(r) => match r {
                Ok(_) => Signal::Good,
                Err(e) => match e {
                    AppError::Cancelled => Signal::Stopped,
                    _ => Signal::Bad,
                },
            },
            Event::Listed(r) => match r {
                Ok(m) => if step == Step::ListCopy && diff_manifests(&self.listed, m).len() > 0 {
                    Signal::Differs
                } else {
                    Signal::Good
                },
                Err(_) => Signal::Bad,
            },
        }
    }

    /// Takes in what became of the last action.
    pub fn advance(&mut self, event: Event)
        requires
            old(self).wf(),
            answers(old(self).action_spec(), event),
        ensures
            final(self).wf(),
            final(self)@ == after_event(old(self)@, event),
    {
        let ghost s0 = self@;
        let ghost ev = event;
        match self.phase {
            Phase::At(step) => {
                let signal: Signal = self.weigh(step, &event);
                let mut error: Option<AppError> = None;
                match event {
                    Event::Listed(Ok(m)) => {
                        self.listed = m;
                    },
                    Event::Copied(Err(e)) => {
                        error = Some(e);
                    },
                    Event::Done(Err(e)) => {
                        error = Some(e);
                    },
                    Event::Listed(Err(e)) => {
                        error = Some(e);
                    },
                    _ => {},
                }
                assert(error == event_error(ev));
                let next: Next = find_next(step, signal);
                match next {
                    Next::Go(t) => {
                        self.phase = Phase::At(t);
                    },
                    Next::Fail(f) => {
                        self.phase = find_failure_phase(f);
                        self.failure = Some(f);
                        self.error = error;
                    },
                    Next::Finish => {
                        self.phase = Phase::Ended;
                    },
                }
                assert(self@ == after_event(s0, ev));
            },
            Phase::Unwinding(f, i) => {
                self.phase = if i < 255 && find_cleanup(f, i + 1).is_some() {
                    Phase::Unwinding(f, i + 1)
                } else {
                    find_after_cleanup(f)
                };
            },
            Phase::Closing(_) => {
                self.phase = Phase::Ended;
                match event {
                    Event::Done(Err(e)) => {
                        self.error = Some(e);
                        self.journal_broken = true;
                    },
                    _ => {},
                }
            },
            Phase::Ended => {},
        }
    }

    /// The record of the migration with the given status.
    pub fn record(mig: &Migration, status: MigrationStatus) -> (r: Migration)
        ensures
            r@ == (MigrationView { status, ..mig@ }),
    {
        let mut m: Migration = mig.copy();
        m.status = status;
        m
    }

    /// The entry for the history, at the given time.
    pub fn history(mig: &Migration, now: String) -> (r: HistoryEntry)
        ensures
            r@ == (HistoryEntryView {
                op: "restore"@,
                id: mig.id@,
                src: mig.source@,
                dst: mig.target@,
                result: "ok"@,
                time: now@,
                duration_sec: 0,
            }),
    {
        history_entry(
            "restore",
            mig.id.as_str(),
            mig.source.as_str(),
            mig.target.as_str(),
            now,
        )
    }

    /// What is to be reported to the user.
    pub fn announcement(&self, task_id: &str) -> (r: Option<ProgressEvent>)
        ensures
            match announcement_of(self@.phase) {
                Some(a) => r is Some && r->0@ == (ProgressEventView {
                    task_id: task_id@,
                    stage: a.0,
                    percent: a.1,
                    message: a.2,
                    transfer: None,
                }),
                None => if self@.phase == Phase::Ended && self@.failure is None {
                    r is Some && r->0@ == (ProgressEventView {
                        task_id: task_id@,
                        stage: stage::CLEANING@,
                        percent: 100,
                        message: "还原完成"@,
                        transfer: None,
                    })
                } else {
                    r is None
                },
            },
    {
        match self.phase {
            Phase::At(Step::PollBefore) => Some(
                ProgressEvent::new(task_id, stage::COPYING, 0, "复制回源盘临时目录"),
            ),
            Phase::At(Step::ListSource) => Some(
                ProgressEvent::new(task_id, stage::VERIFYING, 50, "校验 manifest"),
            ),
            Phase::At(Step::RemoveLink) => Some(
                ProgressEvent::new(task_id, stage::REMOVING_JUNCTION, 70, "删除 junction"),
            ),
            Phase::At(Step::Switch) => Some(
                ProgressEvent::new(task_id, stage::SWITCHING, 85, "切换为普通目录"),
            ),
            Phase::At(Step::RecycleTarget) => Some(
                ProgressEvent::new(task_id, stage::CLEANING, 95, "清理目标数据"),
            ),
            Phase::Ended => if self.failure.is_none() {
                Some(ProgressEvent::new(task_id, stage::CLEANING, 100, "还原完成"))
            } else {
                None
            },
            _ => None,
        }
    }

    /// How far the copy that is under way has come.
    pub fn copy_event(task_id: &str, progress: &CopyProgress) -> (r: ProgressEvent)
        ensures
            r@ == transfer_report(
                task_id@,
                stage::COPYING@,
                (0, 50),
                *progress,
                "正在统计待还原内容"@,
                "正在复制回原磁盘"@,
            ),
    {
        transfer_event(
            task_id,
            stage::COPYING,
            (0, 50),
            progress,
            "正在统计待还原内容",
            "正在复制回原磁盘",
        )
    }

    /// How the restoration ended.
    pub fn finish(self) -> (r: Result<OperationOutcome, (AppError, OperationOutcome)>)
        requires
            self.wf(),
            self@.phase == Phase::Ended,
        ensures
            ends_as(self@, r),
    {
        match self.failure {
            None => Ok(OperationOutcome::changed("restored")),
            Some(f) => {
                let reason: &str = if self.journal_broken {
                    close_reason_of(f)
                } else {
                    reason_of(f)
                };
                let outcome = OperationOutcome {
                    source_changed: source_is_changed(f),
                    reason: String::from_str(reason),
                };
                let own: Option<AppError> = if self.journal_broken {
                    None
                } else {
                    match f {
                        Failure::LinkInvalid => Some(
                            AppError::Junction(String::from_str("junction 已失效，无法还原")),
                        ),
                        Failure::Cancelled => Some(AppError::Cancelled),
                        Failure::Mismatch => Some(
                            AppError::Migrate(String::from_str("还原校验不一致")),
                        ),
                        _ => None,
                    }
                };
                match own {
                    Some(e) => Err((e, outcome)),
                    None => match self.error {
                        Some(e) => Err((e, outcome)),
                        None => {
                            assert(has_own_error(f));
                            Err((AppError::Cancelled, outcome))
                        },
                    },
                }
            },
        }
    }
}

// ---------------------------------------------------------------------------
// Laws
// ---------------------------------------------------------------------------

/// The run after the first `n` events.
pub open spec fn run_at(trace: Seq<Event>, n: nat) -> RunView
    decreases n,
{
    if n == 0 {
        run_start()
    } else {
        after_event(run_at(trace, (n - 1) as nat), trace[n - 1])
    }
}

/// Each of the first `n` events answers the action that was asked for.
pub open spec fn is_run(trace: Seq<Event>, n: nat) -> bool {
    n <= trace.len() && forall|i: int|
        0 <= i < n ==> answers(
            phase_action(run_at(trace, i as nat).phase),
            #[trigger] trace[i],
        )
}

/// Action `a` was asked for and succeeded among the first `n` events.
pub open spec fn succeeded(trace: Seq<Event>, a: Action, n: nat) -> bool
    decreases n,
{
    n > 0 && (succeeded(trace, a, (n - 1) as nat) || (phase_action(
        run_at(trace, (n - 1) as nat).phase,
    ) == a && is_success(trace[n - 1])))
}

/// The step comes after the link was removed.
spec fn after_removal(step: Step) -> bool {
    match step {
        Step::Begin | Step::CheckLink | Step::PollBefore | Step::Copy | Step::ListSource
        | Step::ListCopy | Step::MarkCopied | Step::MarkVerified | Step::RemoveLink => false,
        _ => true,
    }
}

/// The step comes after the restored data was put in its place.
spec fn after_switch(step: Step) -> bool {
    match step {
        Step::MarkSwitched | Step::RecycleTarget | Step::MarkRecycled | Step::RemoveRecord
        | Step::RecordPending | Step::WriteHistory | Step::Complete => true,
        _ => false,
    }
}

/// The actions that matter for the laws.
spec fn matters(a: Action) -> bool {
    a == Action::RemoveJunction || a == Action::Rename(Place::Tmp, Place::Source) || a
        == Action::Recycle(Place::Target)
}

/// What holds after the first `n` events of every run.
spec fn run_facts(trace: Seq<Event>, n: nat) -> bool {
    let s = run_at(trace, n);
    let removed = succeeded(trace, Action::RemoveJunction, n);
    let switched = succeeded(trace, Action::Rename(Place::Tmp, Place::Source), n);
    &&& run_ok(s)
    &&& match s.phase {
        Phase::At(step) => {
            &&& after_removal(step) == removed
            &&& after_switch(step) ==> switched
        },
        _ => match s.failure {
            Some(f) => is_changed(f) == removed,
            None => removed && switched,
        },
    }
}

/// Which steps ask for the actions that matter.
proof fn lemma_step_actions(step: Step)
    ensures
        step_action(step) == Action::RemoveJunction <==> step == Step::RemoveLink,
        step_action(step) == Action::Rename(Place::Tmp, Place::Source) <==> step == Step::Switch,
        step_action(step) == Action::Recycle(Place::Target) <==> step == Step::RecycleTarget,
{
}

/// Cleaning up asks for none of these.
proof fn lemma_unwinding_actions(f: Failure, i: u8)
    ensures
        cleanup_at(f, i) matches Some(a) ==> !matters(a),
        closing_action(f) matches Some(a) ==> !matters(a),
{
}

proof fn lemma_succeeded_step(trace: Seq<Event>, a: Action, m: nat)
    ensures
        succeeded(trace, a, m + 1) == (succeeded(trace, a, m) || (phase_action(
            run_at(trace, m).phase,
        ) == a && is_success(trace[m as int]))),
{
    assert(((m + 1) - 1) as nat == m);
}

/// Every run is in a state that a run can be in.
pub proof fn lemma_run_ok(trace: Seq<Event>, n: nat)
    requires
        is_run(trace, n),
    ensures
        run_ok(run_at(trace, n)),
{
    lemma_run_facts(trace, n);
}

proof fn lemma_run_facts(trace: Seq<Event>, n: nat)
    requires
        is_run(trace, n),
    ensures
        run_facts(trace, n),
    decreases n,
{
    let remove = Action::RemoveJunction;
    let switch = Action::Rename(Place::Tmp, Place::Source);
    if n == 0 {
        assert(!succeeded(trace, remove, 0));
    } else {
        let m = (n - 1) as nat;
        lemma_run_facts(trace, m);
        let s = run_at(trace, m);
        let event = trace[m as int];
        assert(answers(phase_action(s.phase), event));
        assert(run_at(trace, n) == after_event(s, event));
        lemma_succeeded_step(trace, remove, m);
        lemma_succeeded_step(trace, switch, m);
        assert(m + 1 == n);
        match s.phase {
            Phase::At(step) => {
                lemma_step_actions(step);
                lemma_step(s, event, step);
            },
            Phase::Unwinding(f, i) => {
                lemma_unwinding_actions(f, i);
                lemma_unwind(s, event);
            },
            Phase::Closing(f) => {
                lemma_unwinding_actions(f, 0);
                lemma_unwind(s, event);
            },
            Phase::Ended => {},
        }
    }
}

/// Cleaning up stays with its failure.
proof fn lemma_unwind(s: RunView, event: Event)
    requires
        run_ok(s),
        s.phase is Unwinding || s.phase is Closing,
    ensures
        run_ok(after_event(s, event)),
        !(after_event(s, event).phase is At),
        after_event(s, event).failure == s.failure,
        s.failure is Some,
{
}

/// One step of a run.
proof fn lemma_step(s: RunView, event: Event, step: Step)
    requires
        run_ok(s),
        s.phase == Phase::At(step),
        answers(step_action(step), event),
    ensures
        run_ok(after_event(s, event)),
        match after_event(s, event).phase {
            Phase::At(next) => {
                &&& after_removal(next) == (after_removal(step) || step == Step::RemoveLink)
                &&& step == Step::RemoveLink ==> is_success(event)
                &&& after_switch(next) && !after_switch(step) ==> step == Step::Switch
                    && is_success(event)
            },
            _ => match after_event(s, event).failure {
                Some(f) => is_changed(f) == after_removal(step) && (step == Step::RemoveLink
                    ==> !is_success(event)),
                None => after_removal(step) && after_switch(step),
            },
        },
{
}

/// The data in the repository is moved to the recycle bin only after the link
/// was removed and the restored data was put in its place.
pub proof fn law_target_goes_last(trace: Seq<Event>, n: nat)
    requires
        is_run(trace, n),
        phase_action(run_at(trace, n).phase) == Action::Recycle(Place::Target),
    ensures
        succeeded(trace, Action::RemoveJunction, n),
        succeeded(trace, Action::Rename(Place::Tmp, Place::Source), n),
{
    lemma_run_facts(trace, n);
    match run_at(trace, n).phase {
        Phase::At(step) => {
            lemma_step_actions(step);
        },
        Phase::Unwinding(f, i) => {
            lemma_unwinding_actions(f, i);
        },
        Phase::Closing(f) => {
            lemma_unwinding_actions(f, 0);
        },
        Phase::Ended => {},
    }
}

/// A run that is at `step` has done `a`.
#[verifier::opaque]
spec fn is_past(step: Step, a: Action) -> bool {
    match a {
        Action::JournalMark(Mark::RestoreCopied) => steps_left(step) <= 11,
        Action::JournalMark(Mark::RestoreManifestOk) => steps_left(step) <= 10,
        Action::JournalMark(Mark::JunctionRemoved) => steps_left(step) <= 8,
        Action::JournalMark(Mark::RestoreSwitched) => steps_left(step) <= 6,
        Action::Recycle(Place::Target) => step == Step::MarkRecycled || step == Step::RemoveRecord,
        _ => false,
    }
}

proof fn lemma_past(trace: Seq<Event>, n: nat, a: Action)
    requires
        is_run(trace, n),
    ensures
        run_at(trace, n).phase matches Phase::At(step) ==> is_past(step, a) ==> succeeded(
            trace,
            a,
            n,
        ),
    decreases n,
{
    reveal(is_past);
    if n > 0 {
        let m = (n - 1) as nat;
        lemma_past(trace, m, a);
        lemma_run_facts(trace, m);
        assert(m + 1 == n);
        let s = run_at(trace, m);
        let event = trace[m as int];
        assert(answers(phase_action(s.phase), event));
        lemma_succeeded_step(trace, a, m);
        match s.phase {
            Phase::At(step) => {
                lemma_past_step(s, event, step, a);
            },
            Phase::Ended => {},
            _ => {
                lemma_unwind(s, event);
            },
        }
    }
}

proof fn lemma_past_step(s: RunView, event: Event, step: Step, a: Action)
    requires
        run_ok(s),
        s.phase == Phase::At(step),
        answers(step_action(step), event),
    ensures
        after_event(s, event).phase matches Phase::At(next) ==> is_past(next, a) ==> is_past(step, a)
            || (step_action(step) == a && is_success(event)),
{
    reveal(is_past);
}

/// Where the actions that cannot be undone are asked for.
proof fn lemma_asked_at(phase: Phase)
    ensures
        phase_action(phase) == Action::RemoveJunction ==> phase == Phase::At(Step::RemoveLink),
        phase_action(phase) == Action::Rename(Place::Tmp, Place::Source) ==> phase == Phase::At(
            Step::Switch,
        ),
        phase_action(phase) == Action::Recycle(Place::Target) ==> phase == Phase::At(
            Step::RecycleTarget,
        ),
        phase_action(phase) == Action::RemoveRecord ==> phase == Phase::At(Step::RemoveRecord),
{
    match phase {
        Phase::At(step) => {
            lemma_step_actions(step);
        },
        Phase::Unwinding(f, i) => {
            lemma_unwinding_actions(f, i);
        },
        Phase::Closing(f) => {
            lemma_unwinding_actions(f, 0);
        },
        Phase::Ended => {},
    }
}

/// The phase asks for nothing that cannot be undone before the journal was told;
/// the flags say which of the four marks it holds.
pub open spec fn is_told(
    phase: Phase,
    copied: bool,
    compared: bool,
    removed: bool,
    switched: bool,
) -> bool {
    let a = phase_action(phase);
    &&& a == Action::RemoveJunction ==> copied && compared
    &&& a == Action::Rename(Place::Tmp, Place::Source) ==> removed
    &&& a == Action::Recycle(Place::Target) ==> switched
}

proof fn lemma_told(phase: Phase, copied: bool, compared: bool, removed: bool, switched: bool)
    requires
        phase matches Phase::At(step) ==> {
            &&& is_past(step, Action::JournalMark(Mark::RestoreCopied)) ==> copied
            &&& is_past(step, Action::JournalMark(Mark::RestoreManifestOk)) ==> compared
            &&& is_past(step, Action::JournalMark(Mark::JunctionRemoved)) ==> removed
            &&& is_past(step, Action::JournalMark(Mark::RestoreSwitched)) ==> switched
        },
    ensures
        is_told(phase, copied, compared, removed, switched),
{
    reveal(is_past);
    lemma_asked_at(phase);
}

/// The journal is told before every step that cannot be undone: before the link
/// goes, it holds that the data was copied and compared; before the copy takes
/// the place of the source, that the link is gone; before the data in the
/// repository goes, that the copy stands in its place.
pub proof fn law_journal_is_told_first(trace: Seq<Event>, n: nat)
    requires
        is_run(trace, n),
    ensures
        is_told(
            run_at(trace, n).phase,
            succeeded(trace, Action::JournalMark(Mark::RestoreCopied), n),
            succeeded(trace, Action::JournalMark(Mark::RestoreManifestOk), n),
            succeeded(trace, Action::JournalMark(Mark::JunctionRemoved), n),
            succeeded(trace, Action::JournalMark(Mark::RestoreSwitched), n),
        ),
{
    lemma_past(trace, n, Action::JournalMark(Mark::RestoreCopied));
    lemma_past(trace, n, Action::JournalMark(Mark::RestoreManifestOk));
    lemma_past(trace, n, Action::JournalMark(Mark::JunctionRemoved));
    lemma_past(trace, n, Action::JournalMark(Mark::RestoreSwitched));
    lemma_told(
        run_at(trace, n).phase,
        succeeded(trace, Action::JournalMark(Mark::RestoreCopied), n),
        succeeded(trace, Action::JournalMark(Mark::RestoreManifestOk), n),
        succeeded(trace, Action::JournalMark(Mark::JunctionRemoved), n),
        succeeded(trace, Action::JournalMark(Mark::RestoreSwitched), n),
    );
}

/// The record of the migration is removed only after the data in the repository
/// went to the recycle bin.
pub proof fn law_record_goes_after_the_data(trace: Seq<Event>, n: nat)
    requires
        is_run(trace, n),
        phase_action(run_at(trace, n).phase) == Action::RemoveRecord,
    ensures
        succeeded(trace, Action::Recycle(Place::Target), n),
{
    lemma_past(trace, n, Action::Recycle(Place::Target));
    lemma_asked_at(run_at(trace, n).phase);
    reveal(is_past);
}

/// Whatever happens, nothing but the temporary copy is ever deleted, and
/// nothing but the data in the repository is ever moved to the recycle bin.
pub proof fn law_only_the_copy_is_deleted(phase: Phase, place: Place)
    ensures
        phase_action(phase) == Action::RemoveTree(place) ==> place == Place::Tmp,
        phase_action(phase) == Action::Recycle(place) ==> place == Place::Target,
{
}

/// A restoration that failed reports that the source has changed exactly where
/// the link had been removed.
pub proof fn law_change_is_reported_iff_link_was_removed(trace: Seq<Event>, n: nat)
    requires
        is_run(trace, n),
        run_at(trace, n).phase == Phase::Ended,
        run_at(trace, n).failure is Some,
    ensures
        is_changed(run_at(trace, n).failure->0) == succeeded(trace, Action::RemoveJunction, n),
{
    lemma_run_facts(trace, n);
}

/// Where the restored data cannot be put in its place, the link is made again.
pub proof fn law_failed_switch_rebuilds_the_link()
    ensures
        next_of(Step::Switch, Signal::Bad) == Next::Fail(Failure::SwitchFailed),
        cleanup_at(Failure::SwitchFailed, 0) == Some(Action::CreateJunction),
{
}

/// A restoration that fails before the link was removed removes its copy, and
/// the journal is told. The link and the data in the repository stay.
pub proof fn law_failed_copy_leaves_nothing(f: Failure)
    requires
        f == Failure::CopyStopped || f == Failure::CopyFailed || f == Failure::ListFailed || f
            == Failure::Mismatch || f == Failure::RemoveLinkFailed,
    ensures
        !is_changed(f),
        enter_failure(f) == Phase::Unwinding(f, 0),
        cleanup_at(f, 0) == Some(Action::RemoveTree(Place::Tmp)),
        cleanup_at(f, 1) is None,
        closing_action(f) matches Some(a) && (a is JournalFail || a is JournalCancel),
{
}

/// What the listings among the first `n` events found.
pub open spec fn listings(trace: Seq<Event>, n: nat) -> Seq<Seq<ManifestEntryView>>
    decreases n,
{
    if n == 0 {
        Seq::empty()
    } else {
        match trace[n - 1] {
            Event::Listed(Ok(m)) => listings(trace, (n - 1) as nat).push(entries_view(m.entries@)),
            _ => listings(trace, (n - 1) as nat),
        }
    }
}

/// How many listings there have been when a run is at a step.
spec fn listings_before(step: Step) -> nat {
    match step {
        Step::Begin | Step::CheckLink | Step::PollBefore | Step::Copy | Step::ListSource => 0,
        Step::ListCopy => 1,
        _ => 2,
    }
}

/// The copy is what lies in the repository, as far as the run has come.
#[verifier::opaque]
spec fn on_track(s: RunView, found: Seq<Seq<ManifestEntryView>>) -> bool {
    match s.phase {
        Phase::At(step) => {
            &&& found.len() == listings_before(step)
            &&& found.len() == 1 ==> s.listed == found[0]
            &&& found.len() == 2 ==> same_tree(found[0], found[1])
        },
        _ => true,
    }
}

proof fn lemma_on_track(trace: Seq<Event>, n: nat)
    requires
        is_run(trace, n),
    ensures
        on_track(run_at(trace, n), listings(trace, n)),
    decreases n,
{
    if n == 0 {
        reveal(on_track);
    } else {
        let m = (n - 1) as nat;
        lemma_on_track(trace, m);
        lemma_run_facts(trace, m);
        let s = run_at(trace, m);
        let event = trace[m as int];
        assert(answers(phase_action(s.phase), event));
        lemma_track_step(s, listings(trace, m), event, listings(trace, n));
    }
}

proof fn lemma_track_step(
    s: RunView,
    found: Seq<Seq<ManifestEntryView>>,
    event: Event,
    after: Seq<Seq<ManifestEntryView>>,
)
    requires
        run_ok(s),
        answers(phase_action(s.phase), event),
        on_track(s, found),
        after == match event {
            Event::Listed(Ok(m)) => found.push(entries_view(m.entries@)),
            _ => found,
        },
    ensures
        on_track(after_event(s, event), after),
{
    reveal(on_track);
}

/// The link is removed only where the copy holds what lies in the repository:
/// both were listed after the copy, and the listings agree.
pub proof fn law_restored_data_is_complete(trace: Seq<Event>, n: nat)
    requires
        is_run(trace, n),
        phase_action(run_at(trace, n).phase) == Action::RemoveJunction,
    ensures
        listings(trace, n).len() == 2,
        same_tree(listings(trace, n)[0], listings(trace, n)[1]),
{
    lemma_on_track(trace, n);
    reveal(on_track);
    match run_at(trace, n).phase {
        Phase::At(step) => {
            lemma_step_actions(step);
        },
        Phase::Unwinding(f, i) => {
            lemma_unwinding_actions(f, i);
        },
        Phase::Closing(f) => {
            lemma_unwinding_actions(f, 0);
        },
        Phase::Ended => {},
    }
}

/// The number of actions that a run can still ask for.
pub open spec fn actions_left(phase: Phase) -> nat {
    match phase {
        Phase::At(step) => steps_left(step) + 6,
        Phase::Unwinding(_, i) => if i >= 4 {
            2
        } else {
            (6 - i) as nat
        },
        Phase::Closing(_) => 1,
        Phase::Ended => 0,
    }
}

/// The number of steps from a step on.
pub open spec fn steps_left(step: Step) -> nat {
    match step {
        Step::Begin => 18,
        Step::CheckLink => 17,
        Step::PollBefore => 16,
        Step::Copy => 15,
        Step::ListSource => 14,
        Step::ListCopy => 13,
        Step::MarkCopied => 12,
        Step::MarkVerified => 11,
        Step::RemoveLink => 10,
        Step::MarkRemoved => 9,
        Step::Switch => 8,
        Step::MarkSwitched => 7,
        Step::RecycleTarget => 6,
        Step::MarkRecycled => 5,
        Step::RemoveRecord => 4,
        Step::RecordPending => 3,
        Step::WriteHistory => 2,
        Step::Complete => 1,
    }
}

/// A restoration comes to an end, whatever becomes of its actions.
pub proof fn law_run_ends(s: RunView, event: Event)
    requires
        run_ok(s),
        s.phase != Phase::Ended,
        answers(phase_action(s.phase), event),
    ensures
        actions_left(after_event(s, event).phase) < actions_left(s.phase),
{
}

/// The number of actions that are left never grows, and falls until the run has
/// ended.
proof fn lemma_actions_fall(trace: Seq<Event>, i: nat, n: nat)
    requires
        is_run(trace, n),
        i <= n,
    ensures
        actions_left(run_at(trace, n).phase) <= actions_left(run_at(trace, i).phase),
        i < n && run_at(trace, i).phase != Phase::Ended ==> actions_left(
            run_at(trace, n).phase,
        ) < actions_left(run_at(trace, i).phase),
    decreases n,
{
    if i < n {
        let m = (n - 1) as nat;
        let s = run_at(trace, m);
        lemma_actions_fall(trace, i, m);
        lemma_run_facts(trace, m);
        assert(answers(phase_action(s.phase), trace[m as int]));
        lemma_action_falls(s, trace[m as int]);
    }
}

proof fn lemma_action_falls(s: RunView, event: Event)
    requires
        run_ok(s),
        answers(phase_action(s.phase), event),
    ensures
        actions_left(after_event(s, event).phase) <= actions_left(s.phase),
        s.phase != Phase::Ended ==> actions_left(after_event(s, event).phase) < actions_left(
            s.phase,
        ),
{
    if s.phase != Phase::Ended {
        law_run_ends(s, event);
    }
}

/// Only one step asks for the recycle bin, and only the temporary copy is ever
/// deleted.
proof fn lemma_recycling_step(phase: Phase)
    ensures
        phase_action(phase) is Recycle ==> phase == Phase::At(Step::RecycleTarget) && phase_action(phase)
            == Action::Recycle(Place::Target),
        phase_action(phase) matches Action::RemoveTree(place) ==> place == Place::Tmp,
{
}

/// In a whole run the recycle bin is asked for at most once, only for the data in
/// the repository, and only after the link was removed and the restored data was put
/// in its place. Nothing but the temporary copy is ever deleted.
pub proof fn law_target_goes_once_and_last(trace: Seq<Event>, n: nat, i: nat, j: nat)
    requires
        is_run(trace, n),
        i <= n,
        j <= n,
    ensures
        ({
            let a = phase_action(run_at(trace, i).phase);
            let b = phase_action(run_at(trace, j).phase);
            &&& a is Recycle && b is Recycle ==> i == j
            &&& a is Recycle ==> a == Action::Recycle(Place::Target) && succeeded(
                trace,
                Action::RemoveJunction,
                i,
            ) && succeeded(trace, Action::Rename(Place::Tmp, Place::Source), i)
            &&& a matches Action::RemoveTree(place) ==> place == Place::Tmp
        }),
{
    lemma_recycling_step(run_at(trace, i).phase);
    lemma_recycling_step(run_at(trace, j).phase);
    if phase_action(run_at(trace, i).phase) is Recycle {
        assert(is_run(trace, i));
        law_target_goes_last(trace, i);
        if phase_action(run_at(trace, j).phase) is Recycle {
            if i < j {
                assert(is_run(trace, j));
                lemma_actions_fall(trace, i, j);
            } else if j < i {
                lemma_actions_fall(trace, j, i);
            }
        }
    }
}

} // verus!
