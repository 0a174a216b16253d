//! What the user is told while a task runs.

use crate::file_ops::{CopyPhase, CopyProgress};
use crate::migrator::migrate;
use crate::migrator::plan::{scaled_percent, transfer_report, Action, Event, FailNote, Mark, Place};
use crate::migrator::restore;
use crate::models::MigrationStatus;
use crate::text::replace_char;
use vstd::prelude::*;
use vstd::string::*;

verus! {

/// What is announced in a phase.
pub type Announcement = Option<(Seq<char>, u8, Seq<char>)>;

/// The stage and the percentage are announced.
pub open spec fn announces(a: Announcement, stage: Seq<char>, percent: u8) -> bool {
    a is Some && (a->0).0 == stage && (a->0).1 == percent
}

/// A migration announces what it is about to do: that the copy is checked, that the
/// source is renamed, that the link is made, that the migration is recorded and that
/// the old data goes. Of the rest only the beginning and the look at what changed are
/// announced.
pub proof fn law_migration_announces_what_it_does(phase: migrate::Phase)
    ensures
        ({
            let action = migrate::phase_action(phase);
            let told = migrate::announcement_of(phase);
            &&& action == Action::JournalMark(Mark::Copied) ==> announces(told, "verifying"@, 60)
            &&& action == Action::JournalFail(FailNote::ManifestMismatch) ==> announces(
                told,
                "verifying"@,
                60,
            )
            &&& action == Action::Rename(Place::Source, Place::Old) ==> announces(
                told,
                "renaming_source"@,
                70,
            )
            &&& action == Action::MakeParent(Place::Target) ==> announces(
                told,
                "creating_junction"@,
                90,
            )
            &&& action == Action::WriteRecord(MigrationStatus::Active) ==> announces(
                told,
                "recording"@,
                95,
            )
            &&& action == Action::Recycle(Place::Old) ==> announces(told, "cleaning"@, 99)
            &&& action is PollCancel && told is Some ==> announces(told, "copying"@, 0)
            &&& action == Action::ListTree(Place::Old) && told is Some ==> announces(
                told,
                "syncing"@,
                80,
            )
            &&& action == Action::JournalMark(Mark::IncrementalSynced) && told is Some
                ==> announces(told, "syncing"@, 80)
            &&& action is CopyTree || action is RemoveTree || action is CreateJunction
                || action is JournalComplete || action is WriteHistory || action is Stop
                ==> told is None
        }),
{
}

/// How far a migration has come at least.
spec fn level(phase: migrate::Phase) -> int {
    match phase {
        migrate::Phase::At(step) => match step {
            migrate::Step::CheckSource
            | migrate::Step::Begin
            | migrate::Step::PollBefore
            | migrate::Step::Copy
            | migrate::Step::PollAfter => 0,
            migrate::Step::MarkCopied
            | migrate::Step::MarkVerified
            | migrate::Step::MarkRenaming => 60,
            migrate::Step::RenameSource | migrate::Step::MarkRenamed => 70,
            migrate::Step::MarkSnapshotSynced
            | migrate::Step::ListOld
            | migrate::Step::ClearTmp
            | migrate::Step::CopyAgain
            | migrate::Step::ListAgain
            | migrate::Step::MarkSynced => 80,
            migrate::Step::MakeParent
            | migrate::Step::RenameTmp
            | migrate::Step::CreateLink
            | migrate::Step::CheckLink
            | migrate::Step::MarkLinked => 90,
            migrate::Step::Record | migrate::Step::MarkRecorded => 95,
            _ => 99,
        },
        migrate::Phase::Closing(migrate::Failure::Mismatch) => 60,
        _ => 100,
    }
}

proof fn lemma_level(s: migrate::RunView, event: Event, now: Seq<char>)
    requires
        migrate::run_ok(s),
    ensures
        level(migrate::after_event(s, event, now).phase) >= level(s.phase),
{
}

proof fn lemma_levels(snapshot: bool, trace: migrate::Trace, i: nat, j: nat)
    requires
        i <= j,
        migrate::is_run(snapshot, trace, j),
    ensures
        level(migrate::run_at(snapshot, trace, j).phase) >= level(
            migrate::run_at(snapshot, trace, i).phase,
        ),
    decreases j,
{
    if i < j {
        let m = (j - 1) as nat;
        lemma_levels(snapshot, trace, i, m);
        migrate::lemma_run_ok(snapshot, trace, m);
        lemma_level(migrate::run_at(snapshot, trace, m), trace[m as int].0, trace[m as int].1);
    }
}

/// Where a run stands after its first `i` events.
#[verifier::opaque]
pub open spec fn stands_at(snapshot: bool, trace: migrate::Trace, i: nat) -> migrate::Phase {
    migrate::run_at(snapshot, trace, i).phase
}

proof fn lemma_stands(snapshot: bool, trace: migrate::Trace, i: nat, j: nat)
    requires
        i <= j,
        migrate::is_run(snapshot, trace, j),
    ensures
        level(stands_at(snapshot, trace, i)) <= level(stands_at(snapshot, trace, j)),
{
    reveal(stands_at);
    lemma_levels(snapshot, trace, i, j);
}

proof fn lemma_level_is_told(phase: migrate::Phase)
    ensures
        migrate::announcement_of(phase) matches Some(a) ==> a.1 == level(phase),
{
}

/// What a migration announces never goes back.
pub proof fn law_migration_percentage_never_goes_back(
    snapshot: bool,
    trace: migrate::Trace,
    i: nat,
    j: nat,
)
    requires
        i <= j,
        migrate::is_run(snapshot, trace, j),
        migrate::announcement_of(stands_at(snapshot, trace, i)) is Some,
        migrate::announcement_of(stands_at(snapshot, trace, j)) is Some,
    ensures
        (migrate::announcement_of(stands_at(snapshot, trace, i))->0).1 <= (
        migrate::announcement_of(stands_at(snapshot, trace, j))->0).1,
{
    lemma_stands(snapshot, trace, i, j);
    lemma_level_is_told(stands_at(snapshot, trace, i));
    lemma_level_is_told(stands_at(snapshot, trace, j));
}

/// A restoration announces what it is about to do: that the copy is checked, that the
/// link goes, that the copy takes its place and that the data in the repository goes.
pub proof fn law_restoration_announces_what_it_does(phase: restore::Phase)
    ensures
        ({
            let action = restore::phase_action(phase);
            let told = restore::announcement_of(phase);
            &&& action == Action::ListTree(Place::ReadRoot) ==> announces(told, "verifying"@, 50)
            &&& action is RemoveJunction ==> announces(told, "removing_junction"@, 70)
            &&& action == Action::Rename(Place::Tmp, Place::Source) ==> announces(
                told,
                "switching"@,
                85,
            )
            &&& action == Action::Recycle(Place::Target) ==> announces(told, "cleaning"@, 95)
            &&& action is PollCancel ==> announces(told, "copying"@, 0)
            &&& action is CopyTree || action is RemoveTree || action is JournalMark
                || action is RemoveRecord || action is WriteRecord || action is JournalComplete
                || action is WriteHistory || action is Stop ==> told is None
        }),
{
}

/// A report about a copy lies in the range that the copy takes, begins where the range
/// begins and ends where it ends, and hands on what was counted.
pub proof fn law_copy_report_shows_the_copy(
    task: Seq<char>,
    stage: Seq<char>,
    range: (u8, u8),
    progress: CopyProgress,
    preparing: Seq<char>,
    copying: Seq<char>,
)
    requires
        range.0 <= range.1 <= 100,
    ensures
        ({
            let r = transfer_report(task, stage, range, progress, preparing, copying);
            &&& r.task_id == task
            &&& r.stage == stage
            &&& range.0 <= r.percent <= range.1
            &&& r.transfer is Some
            &&& (r.transfer->0).completed_bytes == progress.completed_bytes
            &&& (r.transfer->0).total_bytes == progress.total_bytes
            &&& (r.transfer->0).completed_files == progress.completed_files
            &&& (r.transfer->0).total_files == progress.total_files
            &&& (r.transfer->0).current_path is Some <==> progress.current_path is Some
            &&& progress.current_path is Some ==> (r.transfer->0).current_path->0 == replace_char(
                (progress.current_path->0)@,
                '/',
                '\\',
            )
            &&& progress.phase == CopyPhase::Preparing ==> r.percent == range.0 && r.message
                == preparing && (r.transfer->0).phase == "preparing"@
            &&& progress.phase != CopyPhase::Preparing ==> r.message == copying && (
            r.transfer->0).phase == "copying"@
            &&& progress.phase != CopyPhase::Preparing && progress.spec_percent() == 100
                ==> r.percent == range.1
        }),
{
    if progress.phase != CopyPhase::Preparing {
        let p = progress.spec_percent() as int;
        let span = range.1 - range.0;
        assert(0 <= (p * span) / 100 <= span) by (nonlinear_arith)
            requires
                0 <= p <= 100,
                0 <= span,
        ;
        assert(p == 100 ==> (p * span) / 100 == span) by (nonlinear_arith);
        assert(0 <= scaled_percent(range, progress) <= 100);
    }
}

} // verus!
