//! Migrating a directory: what is asked for in which order, what follows when
//! something goes wrong, and what is reported in the end.

use crate::error::AppError;
use crate::file_ops::{entries_view, same_tree, ManifestEntryView};
use crate::migrator::migrate::{
    after_cleanup, after_event, cleanup_at, copies_match, ends_as, enter_failure, is_run,
    is_success, lemma_run_ok, next_of, phase_action, run_at, run_ok, signal_of, step_action,
    Failure, Next, Phase, RunView, Step, Trace,
};
use crate::migrator::plan::{answers, Action, Event, FailNote, Mark, Place};
use crate::migrator::MigratePlan;
use crate::models::{Migration, MigrationStatus, OperationOutcome};
use crate::text::replace_char;
use vstd::prelude::*;
use vstd::string::*;

verus! {

/// What a run asks for after its first `i` events.
#[verifier::opaque]
pub open spec fn asked(snapshot: bool, trace: Trace, i: nat) -> Action {
    phase_action(run_at(snapshot, trace, i).phase)
}

/// The run after its first `i` events.
#[verifier::opaque]
spec fn state(snapshot: bool, trace: Trace, i: nat) -> RunView {
    run_at(snapshot, trace, i)
}

proof fn lemma_state(snapshot: bool, trace: Trace, i: nat)
    ensures
        state(snapshot, trace, i) == run_at(snapshot, trace, i),
        asked(snapshot, trace, i) == phase_action(state(snapshot, trace, i).phase),
{
    reveal(state);
    reveal(asked);
}

proof fn lemma_asked(snapshot: bool, trace: Trace, i: nat)
    ensures
        asked(snapshot, trace, i) == phase_action(state(snapshot, trace, i).phase),
{
    reveal(state);
    reveal(asked);
}

proof fn lemma_state_next(snapshot: bool, trace: Trace, i: nat)
    ensures
        state(snapshot, trace, i + 1) == after_event(
            state(snapshot, trace, i),
            trace[i as int].0,
            trace[i as int].1,
        ),
{
    reveal(state);
    assert((i + 1 - 1) as nat == i);
}

proof fn lemma_state_ok(snapshot: bool, trace: Trace, n: nat, i: nat)
    requires
        is_run(snapshot, trace, n),
        i <= n,
    ensures
        run_ok(state(snapshot, trace, i)),
        i < n ==> answers(phase_action(state(snapshot, trace, i).phase), trace[i as int].0),
{
    reveal(state);
    lemma_run_ok(snapshot, trace, i);
}

// ---------------------------------------------------------------------------
// After a failure
// ---------------------------------------------------------------------------

/// The phase `k` events after the failure.
spec fn unwound(f: Failure, k: nat) -> Phase
    decreases k,
{
    if k == 0 {
        enter_failure(f)
    } else {
        match unwound(f, (k - 1) as nat) {
            Phase::Unwinding(g, i) => if i < 255 && cleanup_at(g, (i + 1) as u8) is Some {
                Phase::Unwinding(g, (i + 1) as u8)
            } else {
                after_cleanup(g)
            },
            Phase::Closing(_) => Phase::Ended,
            other => other,
        }
    }
}

proof fn lemma_unwound_step(s: RunView, event: Event, now: Seq<char>, f: Failure, k: nat)
    requires
        s.phase == unwound(f, k),
        s.failure == Some(f),
    ensures
        after_event(s, event, now).phase == unwound(f, k + 1),
        after_event(s, event, now).failure == Some(f),
        s.phase is Closing ==> after_event(s, event, now).journal_broken == (s.journal_broken || (
        event matches Event::Done(r) && r is Err)),
        !(s.phase is Closing) ==> after_event(s, event, now).journal_broken == s.journal_broken,
        !(s.phase is Closing) ==> after_event(s, event, now).error == s.error,
        s.phase is Closing && !(event matches Event::Done(r) && r is Err) ==> after_event(
            s,
            event,
            now,
        ).error == s.error,
{
    lemma_unwound_not_at(f, k);
    assert(((k + 1) - 1) as nat == k);
}

proof fn lemma_unwound_not_at(f: Failure, k: nat)
    ensures
        !(unwound(f, k) is At),
    decreases k,
{
    if k > 0 {
        lemma_unwound_not_at(f, (k - 1) as nat);
    }
}

/// What follows a failure, one event after the other.
proof fn lemma_unwinds(snapshot: bool, trace: Trace, m: nat, k: nat, f: Failure)
    requires
        state(snapshot, trace, m).phase == enter_failure(f),
        state(snapshot, trace, m).failure == Some(f),
    ensures
        state(snapshot, trace, m + k).phase == unwound(f, k),
        state(snapshot, trace, m + k).failure == Some(f),
    decreases k,
{
    if k > 0 {
        let j = (k - 1) as nat;
        lemma_unwinds(snapshot, trace, m, j, f);
        lemma_state_next(snapshot, trace, m + j);
        lemma_unwound_step(
            state(snapshot, trace, m + j),
            trace[(m + j) as int].0,
            trace[(m + j) as int].1,
            f,
            j,
        );
        assert(m + k == m + j + 1);
    }
}

/// What is asked for after a failure, and then nothing more.
#[verifier::opaque]
spec fn remedies(f: Failure) -> Seq<Action> {
    match f {
        Failure::Cancelled => seq![Action::RemoveTree(Place::Tmp), Action::JournalCancel],
        Failure::CopyStopped => seq![Action::RemoveTree(Place::Tmp), Action::JournalCancel],
        Failure::CopyFailed => seq![
            Action::RemoveTree(Place::Tmp),
            Action::JournalFail(FailNote::CopyFailed),
        ],
        Failure::Mismatch => seq![Action::JournalFail(FailNote::ManifestMismatch)],
        Failure::RenameFailed => seq![Action::JournalFail(FailNote::SourceRenameFailed)],
        Failure::ListFailed => seq![
            Action::Rename(Place::Old, Place::Source),
            Action::JournalFail(FailNote::SyncFailed),
        ],
        Failure::ClearFailed => seq![
            Action::Rename(Place::Old, Place::Source),
            Action::JournalFail(FailNote::ClearTmpFailed),
        ],
        Failure::SyncStopped => seq![
            Action::Rename(Place::Old, Place::Source),
            Action::RemoveTree(Place::Tmp),
            Action::JournalCancel,
        ],
        Failure::SyncFailed => seq![
            Action::Rename(Place::Old, Place::Source),
            Action::JournalFail(FailNote::SyncFailed),
        ],
        Failure::SyncMismatch => seq![
            Action::Rename(Place::Old, Place::Source),
            Action::JournalFail(FailNote::SecondMismatch),
        ],
        Failure::SourceChanged => seq![
            Action::Rename(Place::Old, Place::Source),
            Action::JournalFail(FailNote::SourceChanged),
        ],
        Failure::RenameTmpFailed => seq![Action::JournalFail(FailNote::TmpRenameFailed)],
        Failure::LinkFailed => seq![
            Action::RemoveJunction,
            Action::Rename(Place::Target, Place::Tmp),
            Action::Rename(Place::Old, Place::Source),
            Action::JournalFail(FailNote::LinkFailed),
        ],
        Failure::LinkUnresolved => seq![
            Action::RemoveJunction,
            Action::Rename(Place::Target, Place::Tmp),
            Action::Rename(Place::Old, Place::Source),
            Action::JournalFail(FailNote::LinkUnresolved),
        ],
        Failure::RecordFailed => seq![
            Action::WriteRecord(MigrationStatus::OldPendingDelete),
            Action::JournalMark(Mark::PendingRecord),
        ],
        _ => Seq::empty(),
    }
}

proof fn lemma_remedies(f: Failure, k: nat)
    ensures
        phase_action(unwound(f, k)) == if k < remedies(f).len() {
            remedies(f)[k as int]
        } else {
            Action::Stop
        },
        k >= remedies(f).len() ==> unwound(f, k) == Phase::Ended,
    decreases k,
{
    reveal(remedies);
    reveal_with_fuel(unwound, 6);
    if k > 5 {
        lemma_remedies(f, (k - 1) as nat);
    }
}

/// The event brings the failure about.
#[verifier::opaque]
spec fn brings(s: RunView, event: (Event, Seq<char>), f: Failure) -> bool {
    let t = after_event(s, event.0, event.1);
    s.phase is At && t.phase == enter_failure(f) && t.failure == Some(f)
}

/// The run fails at event `i`.
proof fn lemma_fails(snapshot: bool, trace: Trace, i: nat, k: nat, f: Failure)
    requires
        brings(state(snapshot, trace, i), trace[i as int], f),
    ensures
        phase_action(state(snapshot, trace, i + 1 + k).phase) == if k < remedies(f).len() {
            remedies(f)[k as int]
        } else {
            Action::Stop
        },
        state(snapshot, trace, i + 1 + k).failure == Some(f),
        k >= remedies(f).len() ==> state(snapshot, trace, i + 1 + k).phase == Phase::Ended,
{
    reveal(brings);
    lemma_state_next(snapshot, trace, i);
    lemma_unwinds(snapshot, trace, i + 1, k, f);
    lemma_remedies(f, k);
}

// ---------------------------------------------------------------------------
// Where actions are asked for
// ---------------------------------------------------------------------------

/// At which steps an action is asked for that no cleaning up asks for.
proof fn lemma_asked_at(phase: Phase)
    ensures
        phase_action(phase) is IsReparsePoint ==> phase == Phase::At(Step::CheckSource),
        phase_action(phase) == Action::JournalBegin ==> phase == Phase::At(Step::Begin),
        phase_action(phase) == Action::PollCancel ==> phase == Phase::At(Step::PollBefore) || phase
            == Phase::At(Step::PollAfter),
        phase_action(phase) == Action::CopyTree(Place::ReadRoot, Place::Tmp) ==> phase == Phase::At(
            Step::Copy,
        ),
        phase_action(phase) == Action::Rename(Place::Source, Place::Old) ==> phase == Phase::At(
            Step::RenameSource,
        ),
        phase_action(phase) == Action::ListTree(Place::Old) ==> phase == Phase::At(Step::ListOld)
            || phase == Phase::At(Step::ListAgain),
        phase_action(phase) == Action::CopyTree(Place::Old, Place::Tmp) ==> phase == Phase::At(
            Step::CopyAgain,
        ),
        phase_action(phase) == Action::Rename(Place::Tmp, Place::Target) ==> phase == Phase::At(
            Step::RenameTmp,
        ),
        phase_action(phase) == Action::CreateJunction ==> phase == Phase::At(Step::CreateLink),
        phase_action(phase) == Action::JunctionResolves ==> phase == Phase::At(Step::CheckLink),
        phase_action(phase) == Action::WriteRecord(MigrationStatus::Active) ==> phase == Phase::At(
            Step::Record,
        ),
        phase_action(phase) == Action::Recycle(Place::Old) ==> phase == Phase::At(Step::Recycle),
        phase_action(phase) == Action::WriteHistory ==> phase == Phase::At(Step::WriteHistory),
        phase_action(phase) == Action::JournalComplete ==> phase == Phase::At(Step::Complete),
{
}

// ---------------------------------------------------------------------------
// Laws: cancelling
// ---------------------------------------------------------------------------

/// Once the user wants to stop, the copy is deleted, the journal is told, and
/// nothing more is asked for: the source stays where it is, no link is made, nothing
/// is recorded or recycled, and the migration is reported as cancelled.
pub proof fn law_cancel_is_obeyed(
    snapshot: bool,
    trace: Trace,
    n: nat,
    i: nat,
    j: nat,
    plan: MigratePlan,
    r: Result<(Migration, OperationOutcome), (AppError, OperationOutcome)>,
)
    requires
        is_run(snapshot, trace, n),
        i < j <= n,
        asked(snapshot, trace, i) == Action::PollCancel,
        trace[i as int].0 == Event::Answer(true),
    ensures
        asked(snapshot, trace, j) == if j == i + 1 {
            Action::RemoveTree(Place::Tmp)
        } else if j == i + 2 {
            Action::JournalCancel
        } else {
            Action::Stop
        },
        j >= i + 3 ==> run_at(snapshot, trace, j).phase == Phase::Ended,
        j >= i + 3 && ends_as(run_at(snapshot, trace, j), plan, r) ==> {
            &&& r is Err
            &&& !r->Err_0.1.source_changed
            &&& is_success(trace[i as int + 2].0) ==> r->Err_0.0 is Cancelled && r->Err_0.1.reason@
                == "migrate_canceled"@
        },
{
    lemma_asked(snapshot, trace, i);
    lemma_state(snapshot, trace, j);
    lemma_state_ok(snapshot, trace, n, i);
    lemma_cancel(snapshot, trace, i, j);
    lemma_cancelled_as(state(snapshot, trace, j), plan, r);
}

proof fn lemma_cancelled_as(
    s: RunView,
    plan: MigratePlan,
    r: Result<(Migration, OperationOutcome), (AppError, OperationOutcome)>,
)
    requires
        s.failure == Some(Failure::Cancelled),
    ensures
        ends_as(s, plan, r) ==> {
            &&& r is Err
            &&& !r->Err_0.1.source_changed
            &&& !s.journal_broken ==> r->Err_0.0 is Cancelled && r->Err_0.1.reason@
                == "migrate_canceled"@
        },
{
}

proof fn lemma_cancel(snapshot: bool, trace: Trace, i: nat, j: nat)
    requires
        run_ok(state(snapshot, trace, i)),
        i < j,
        phase_action(state(snapshot, trace, i).phase) == Action::PollCancel,
        trace[i as int].0 == Event::Answer(true),
    ensures
        phase_action(state(snapshot, trace, j).phase) == if j == i + 1 {
            Action::RemoveTree(Place::Tmp)
        } else if j == i + 2 {
            Action::JournalCancel
        } else {
            Action::Stop
        },
        state(snapshot, trace, j).failure == Some(Failure::Cancelled),
        j >= i + 3 ==> state(snapshot, trace, j).phase == Phase::Ended,
        j >= i + 3 && is_success(trace[i as int + 2].0) ==> !state(
            snapshot,
            trace,
            j,
        ).journal_broken,
{
    lemma_cancel_step(state(snapshot, trace, i), trace[i as int].0, trace[i as int].1);
    let k = (j - i - 1) as nat;
    lemma_fails(snapshot, trace, i, k, Failure::Cancelled);
    assert(i + 1 + k == j);
    lemma_cancel_remedies();
    if j >= i + 3 && is_success(trace[i as int + 2].0) {
        lemma_told(snapshot, trace, i, j, Failure::Cancelled);
    }
}

proof fn lemma_cancel_remedies()
    ensures
        remedies(Failure::Cancelled) == seq![
            Action::RemoveTree(Place::Tmp),
            Action::JournalCancel,
        ],
{
    reveal(remedies);
}

proof fn lemma_cancel_step(s: RunView, event: Event, now: Seq<char>)
    requires
        run_ok(s),
        phase_action(s.phase) == Action::PollCancel,
        event == Event::Answer(true),
    ensures
        brings(s, (event, now), Failure::Cancelled),
{
    reveal(brings);
    lemma_asked_at(s.phase);
}

/// Where the journal could be told of the failure, no error replaces it.
proof fn lemma_told(snapshot: bool, trace: Trace, i: nat, j: nat, f: Failure)
    requires
        run_ok(state(snapshot, trace, i)),
        i < j,
        brings(state(snapshot, trace, i), trace[i as int], f),
        remedies(f).len() > 0 && i + remedies(f).len() < j ==> is_success(
            trace[i as int + remedies(f).len()].0,
        ),
    ensures
        !state(snapshot, trace, j).journal_broken,
        state(snapshot, trace, j).error == error_in(trace[i as int].0),
    decreases j,
{
    lemma_state_next(snapshot, trace, i);
    lemma_brings(state(snapshot, trace, i), trace[i as int], f);
    if j == i + 1 {
    } else {
        let m = (j - 1) as nat;
        let k = (m - i - 1) as nat;
        lemma_told(snapshot, trace, i, m, f);
        lemma_unwinds(snapshot, trace, i + 1, k, f);
        assert(i + 1 + k == m);
        lemma_closing_last(f, k);
        lemma_state_next(snapshot, trace, m);
        lemma_unwound_step(
            state(snapshot, trace, m),
            trace[m as int].0,
            trace[m as int].1,
            f,
            k,
        );
    }
}

proof fn lemma_brings(s: RunView, event: (Event, Seq<char>), f: Failure)
    requires
        brings(s, event, f),
        run_ok(s),
    ensures
        ({
            let t = after_event(s, event.0, event.1);
            &&& t.phase == enter_failure(f)
            &&& t.failure == Some(f)
            &&& !t.journal_broken
            &&& t.error == error_in(event.0)
        }),
{
    reveal(brings);
}

/// Closing comes last.
proof fn lemma_closing_last(f: Failure, k: nat)
    ensures
        unwound(f, k) is Closing ==> k + 1 == remedies(f).len(),
{
    reveal(remedies);
    lemma_remedies(f, k);
    lemma_remedies(f, k + 1);
    assert(((k + 1) - 1) as nat == k);
    if unwound(f, k) is Closing {
        assert(unwound(f, k + 1) == Phase::Ended);
        reveal_with_fuel(unwound, 6);
        if k >= remedies(f).len() {
            assert(unwound(f, k) == Phase::Ended);
        }
    }
}

// ---------------------------------------------------------------------------
// Laws: trouble
// ---------------------------------------------------------------------------

/// What has to follow an action that went wrong: the copy goes where the source
/// was not touched yet, the source is put back where it was, what is left is told to
/// the journal, and nothing else happens.
pub open spec fn after_trouble(a: Action, e: Event) -> Option<Seq<Action>> {
    let failed = e matches Event::Done(r) && r is Err;
    let stopped = e matches Event::Copied(r) && r is Err && r->Err_0 is Cancelled;
    let broken = e matches Event::Copied(r) && r is Err && !(r->Err_0 is Cancelled);
    match a {
        Action::IsReparsePoint(_) => if e == Event::Answer(true) {
            Some(Seq::empty())
        } else {
            None
        },
        Action::JournalBegin | Action::WriteHistory | Action::JournalComplete => if failed {
            Some(Seq::empty())
        } else {
            None
        },
        Action::CopyTree(Place::ReadRoot, Place::Tmp) => if stopped {
            Some(seq![Action::RemoveTree(Place::Tmp), Action::JournalCancel])
        } else if broken {
            Some(
                seq![
                    Action::RemoveTree(Place::Tmp),
                    Action::JournalFail(FailNote::CopyFailed),
                ],
            )
        } else {
            None
        },
        Action::Rename(Place::Source, Place::Old) => if failed {
            Some(seq![Action::JournalFail(FailNote::SourceRenameFailed)])
        } else {
            None
        },
        Action::ListTree(Place::Old) => if e matches Event::Listed(r) && r is Err {
            Some(
                seq![
                    Action::Rename(Place::Old, Place::Source),
                    Action::JournalFail(FailNote::SyncFailed),
                ],
            )
        } else {
            None
        },
        Action::CopyTree(Place::Old, Place::Tmp) => if stopped {
            Some(
                seq![
                    Action::Rename(Place::Old, Place::Source),
                    Action::RemoveTree(Place::Tmp),
                    Action::JournalCancel,
                ],
            )
        } else if broken {
            Some(
                seq![
                    Action::Rename(Place::Old, Place::Source),
                    Action::JournalFail(FailNote::SyncFailed),
                ],
            )
        } else if e matches Event::Copied(r) && r is Ok && !same_tree(
            entries_view(r->Ok_0.copied_manifest.entries@),
            entries_view(r->Ok_0.dst_manifest.entries@),
        ) {
            Some(
                seq![
                    Action::Rename(Place::Old, Place::Source),
                    Action::JournalFail(FailNote::SecondMismatch),
                ],
            )
        } else {
            None
        },
        Action::Rename(Place::Tmp, Place::Target) => if failed {
            Some(seq![Action::JournalFail(FailNote::TmpRenameFailed)])
        } else {
            None
        },
        Action::CreateJunction => if failed {
            Some(
                seq![
                    Action::RemoveJunction,
                    Action::Rename(Place::Target, Place::Tmp),
                    Action::Rename(Place::Old, Place::Source),
                    Action::JournalFail(FailNote::LinkFailed),
                ],
            )
        } else {
            None
        },
        Action::JunctionResolves => if e == Event::Answer(false) {
            Some(
                seq![
                    Action::RemoveJunction,
                    Action::Rename(Place::Target, Place::Tmp),
                    Action::Rename(Place::Old, Place::Source),
                    Action::JournalFail(FailNote::LinkUnresolved),
                ],
            )
        } else {
            None
        },
        Action::WriteRecord(MigrationStatus::Active) => if failed {
            Some(
                seq![
                    Action::WriteRecord(MigrationStatus::OldPendingDelete),
                    Action::JournalMark(Mark::PendingRecord),
                ],
            )
        } else {
            None
        },
        _ => None,
    }
}

/// The failure that trouble with an action leads to.
spec fn failure_of(a: Action, e: Event) -> Failure {
    let stopped = e matches Event::Copied(r) && r is Err && r->Err_0 is Cancelled;
    let copied = e matches Event::Copied(r) && r is Ok;
    match a {
        Action::IsReparsePoint(_) => Failure::Reparse,
        Action::JournalBegin => Failure::BeginRefused,
        Action::WriteHistory => Failure::HistoryFailed,
        Action::JournalComplete => Failure::CompleteFailed,
        Action::CopyTree(Place::ReadRoot, Place::Tmp) => if stopped {
            Failure::CopyStopped
        } else {
            Failure::CopyFailed
        },
        Action::Rename(Place::Source, Place::Old) => Failure::RenameFailed,
        Action::ListTree(Place::Old) => Failure::ListFailed,
        Action::CopyTree(Place::Old, Place::Tmp) => if stopped {
            Failure::SyncStopped
        } else if copied {
            Failure::SyncMismatch
        } else {
            Failure::SyncFailed
        },
        Action::Rename(Place::Tmp, Place::Target) => Failure::RenameTmpFailed,
        Action::CreateJunction => Failure::LinkFailed,
        Action::JunctionResolves => Failure::LinkUnresolved,
        _ => Failure::RecordFailed,
    }
}

proof fn lemma_trouble_step(s: RunView, event: Event, now: Seq<char>)
    requires
        run_ok(s),
        answers(phase_action(s.phase), event),
        after_trouble(phase_action(s.phase), event) is Some,
    ensures
        brings(s, (event, now), failure_of(phase_action(s.phase), event)),
        after_trouble(phase_action(s.phase), event) == Some(
            remedies(failure_of(phase_action(s.phase), event)),
        ),
{
    reveal(brings);
    lemma_asked_at(s.phase);
    lemma_trouble_at(s.phase, event);
    let a = phase_action(s.phase);
    let f = failure_of(a, event);
    let step = s.phase->At_0;
    let matches = match event {
        Event::Copied(Ok(o)) => copies_match(o),
        _ => s.matches,
    };
    assert(next_of(step, signal_of(step, event, s.copied), s.snapshot, matches) == Next::Fail(f));
}

proof fn lemma_trouble_at(phase: Phase, event: Event)
    requires
        after_trouble(phase_action(phase), event) is Some,
    ensures
        phase is At,
        after_trouble(phase_action(phase), event) == Some(
            remedies(failure_of(phase_action(phase), event)),
        ),
{
    reveal(remedies);
    lemma_asked_at(phase);
}

/// Whatever goes wrong, just what has to follow follows, and then nothing more.
pub proof fn law_trouble_is_dealt_with(snapshot: bool, trace: Trace, n: nat, i: nat, k: nat)
    requires
        is_run(snapshot, trace, n),
        i + 1 + k <= n,
        after_trouble(asked(snapshot, trace, i), trace[i as int].0) is Some,
    ensures
        ({
            let list = after_trouble(asked(snapshot, trace, i), trace[i as int].0)->0;
            &&& asked(snapshot, trace, i + 1 + k) == if k < list.len() {
                list[k as int]
            } else {
                Action::Stop
            }
            &&& k >= list.len() ==> run_at(snapshot, trace, i + 1 + k).phase == Phase::Ended
            &&& run_at(snapshot, trace, i + 1 + k).failure is Some
        }),
{
    lemma_asked(snapshot, trace, i);
    lemma_state(snapshot, trace, i + 1 + k);
    lemma_trouble(snapshot, trace, n, i, k);
}

proof fn lemma_trouble(snapshot: bool, trace: Trace, n: nat, i: nat, k: nat)
    requires
        is_run(snapshot, trace, n),
        i + 1 + k <= n,
        after_trouble(phase_action(state(snapshot, trace, i).phase), trace[i as int].0) is Some,
    ensures
        ({
            let a = phase_action(state(snapshot, trace, i).phase);
            let list = after_trouble(a, trace[i as int].0)->0;
            let t = state(snapshot, trace, i + 1 + k);
            &&& phase_action(t.phase) == if k < list.len() {
                list[k as int]
            } else {
                Action::Stop
            }
            &&& k >= list.len() ==> t.phase == Phase::Ended
            &&& t.failure == Some(failure_of(a, trace[i as int].0))
        }),
{
    let s = state(snapshot, trace, i);
    let event = trace[i as int].0;
    lemma_state_ok(snapshot, trace, n, i);
    lemma_trouble_step(s, event, trace[i as int].1);
    lemma_fails(snapshot, trace, i, k, failure_of(phase_action(s.phase), event));
}

/// The error that an event brings.
pub open spec fn error_in(e: Event) -> Option<AppError> {
    match e {
        Event::Done(Err(e)) => Some(e),
        Event::Copied(Err(e)) => Some(e),
        Event::Listed(Err(e)) => Some(e),
        _ => None,
    }
}

/// The error that went with the trouble is reported, as long as the journal could be
/// told; the source counts as changed exactly from the renaming on, and the reason
/// says whether it was rolled back or is left halfway.
pub proof fn law_trouble_is_reported(
    snapshot: bool,
    trace: Trace,
    n: nat,
    i: nat,
    plan: MigratePlan,
    r: Result<(Migration, OperationOutcome), (AppError, OperationOutcome)>,
)
    requires
        is_run(snapshot, trace, n),
        i < n,
        after_trouble(asked(snapshot, trace, i), trace[i as int].0) is Some,
        run_at(snapshot, trace, n).phase == Phase::Ended,
        ends_as(run_at(snapshot, trace, n), plan, r),
    ensures
        ({
            let a = asked(snapshot, trace, i);
            let e = trace[i as int].0;
            let list = after_trouble(a, e)->0;
            let told = list.len() == 0 || is_success(trace[i as int + list.len()].0);
            let early = a is IsReparsePoint || a == Action::JournalBegin || a == Action::CopyTree(
                Place::ReadRoot,
                Place::Tmp,
            ) || a == Action::Rename(Place::Source, Place::Old);
            &&& r is Err
            &&& r->Err_0.1.source_changed == !early
            &&& r->Err_0.1.reason@ == if !early {
                "migrate_partial"@
            } else if a is IsReparsePoint {
                "migrate_rejected_reparse"@
            } else {
                "migrate_rolled_back"@
            }
            &&& told && error_in(e) is Some ==> Some(r->Err_0.0) == error_in(e)
            &&& a is IsReparsePoint ==> (r->Err_0.0 matches AppError::Migrate(m) && m@
                == "源已是 reparse point，不能重复迁移"@)
            &&& told && a == Action::JunctionResolves ==> (r->Err_0.0 matches AppError::Junction(m)
                && m@ == "junction 解析失败"@)
        }),
{
    lemma_asked(snapshot, trace, i);
    lemma_state(snapshot, trace, n);
    lemma_reported(snapshot, trace, n, i);
    lemma_reasons(
        phase_action(state(snapshot, trace, i).phase),
        trace[i as int].0,
        state(snapshot, trace, n),
        plan,
        r,
    );
}

proof fn lemma_reported(snapshot: bool, trace: Trace, n: nat, i: nat)
    requires
        is_run(snapshot, trace, n),
        i < n,
        after_trouble(phase_action(state(snapshot, trace, i).phase), trace[i as int].0) is Some,
    ensures
        ({
            let a = phase_action(state(snapshot, trace, i).phase);
            let e = trace[i as int].0;
            let list = after_trouble(a, e)->0;
            let t = state(snapshot, trace, n);
            let told = list.len() == 0 || is_success(trace[i as int + list.len()].0);
            &&& t.failure == Some(failure_of(a, e))
            &&& told ==> !t.journal_broken && t.error == error_in(e)
        }),
{
    let s = state(snapshot, trace, i);
    let e = trace[i as int].0;
    let a = phase_action(s.phase);
    let list = after_trouble(a, e)->0;
    lemma_state_ok(snapshot, trace, n, i);
    lemma_trouble_step(s, e, trace[i as int].1);
    let f = failure_of(a, e);
    let k = (n - i - 1) as nat;
    lemma_trouble(snapshot, trace, n, i, k);
    assert(i + 1 + k == n);
    if list.len() == 0 || is_success(trace[i as int + list.len()].0) {
        lemma_told(snapshot, trace, i, n, f);
    }
}

proof fn lemma_reasons(
    a: Action,
    e: Event,
    s: RunView,
    plan: MigratePlan,
    r: Result<(Migration, OperationOutcome), (AppError, OperationOutcome)>,
)
    requires
        after_trouble(a, e) is Some,
        s.failure == Some(failure_of(a, e)),
        ends_as(s, plan, r),
        after_trouble(a, e)->0.len() == 0 ==> !s.journal_broken,
    ensures
        ({
            let early = a is IsReparsePoint || a == Action::JournalBegin || a == Action::CopyTree(
                Place::ReadRoot,
                Place::Tmp,
            ) || a == Action::Rename(Place::Source, Place::Old);
            &&& r is Err
            &&& r->Err_0.1.source_changed == !early
            &&& r->Err_0.1.reason@ == if !early {
                "migrate_partial"@
            } else if a is IsReparsePoint {
                "migrate_rejected_reparse"@
            } else {
                "migrate_rolled_back"@
            }
            &&& !s.journal_broken && s.error == error_in(e) && error_in(e) is Some ==> Some(
                r->Err_0.0,
            ) == error_in(e)
            &&& a is IsReparsePoint ==> (r->Err_0.0 matches AppError::Migrate(m) && m@
                == "源已是 reparse point，不能重复迁移"@)
            &&& !s.journal_broken && a == Action::JunctionResolves ==> (
            r->Err_0.0 matches AppError::Junction(m) && m@ == "junction 解析失败"@)
        }),
{
}

// ---------------------------------------------------------------------------
// Laws: a run in which all goes well
// ---------------------------------------------------------------------------

/// The action went well: questions were answered as they should be, and the rest
/// succeeded; a copy wrote what it read.
pub open spec fn goes_well(a: Action, e: Event) -> bool {
    match a {
        Action::IsReparsePoint(_) | Action::PollCancel => e == Event::Answer(false),
        Action::JunctionResolves => e == Event::Answer(true),
        Action::CopyTree(_, _) => e matches Event::Copied(r) && r is Ok && same_tree(
            entries_view(r->Ok_0.copied_manifest.entries@),
            entries_view(r->Ok_0.dst_manifest.entries@),
        ),
        Action::ListTree(_) => e matches Event::Listed(r) && r is Ok,
        _ => e matches Event::Done(r) && r is Ok,
    }
}

/// What the last copy among the first `n` events read.
pub open spec fn last_read(trace: Trace, n: nat) -> Seq<ManifestEntryView>
    decreases n,
{
    if n == 0 {
        Seq::empty()
    } else {
        match trace[n - 1].0 {
            Event::Copied(Ok(o)) => entries_view(o.copied_manifest.entries@),
            _ => last_read(trace, (n - 1) as nat),
        }
    }
}

/// What is found is what was read, unless this is the first listing of a source that
/// changed.
pub open spec fn lists_as_read(trace: Trace, k: nat, changed: bool) -> bool {
    trace[k as int].0 matches Event::Listed(Ok(m)) ==> (same_tree(
        last_read(trace, k),
        entries_view(m.entries@),
    ) <==> !(changed && k == 10))
}

/// The step that follows when all goes well.
spec fn succ(step: Step, snapshot: bool, agrees: bool) -> Option<Step> {
    match step {
        Step::CheckSource => Some(Step::Begin),
        Step::Begin => Some(Step::PollBefore),
        Step::PollBefore => Some(Step::Copy),
        Step::Copy => Some(Step::PollAfter),
        Step::PollAfter => Some(Step::MarkCopied),
        Step::MarkCopied => Some(Step::MarkVerified),
        Step::MarkVerified => Some(Step::MarkRenaming),
        Step::MarkRenaming => Some(Step::RenameSource),
        Step::RenameSource => Some(Step::MarkRenamed),
        Step::MarkRenamed => Some(
            if snapshot {
                Step::MarkSnapshotSynced
            } else {
                Step::ListOld
            },
        ),
        Step::MarkSnapshotSynced => Some(Step::MakeParent),
        Step::ListOld => Some(
            if agrees {
                Step::MarkSynced
            } else {
                Step::ClearTmp
            },
        ),
        Step::ClearTmp => Some(Step::CopyAgain),
        Step::CopyAgain => Some(Step::ListAgain),
        Step::ListAgain => Some(Step::MarkSynced),
        Step::MarkSynced => Some(Step::MakeParent),
        Step::MakeParent => Some(Step::RenameTmp),
        Step::RenameTmp => Some(Step::CreateLink),
        Step::CreateLink => Some(Step::CheckLink),
        Step::CheckLink => Some(Step::MarkLinked),
        Step::MarkLinked => Some(Step::Record),
        Step::Record => Some(Step::MarkRecorded),
        Step::MarkRecorded => Some(Step::Recycle),
        Step::Recycle => Some(Step::MarkRecycled),
        Step::MarkRecycled => Some(Step::WriteHistory),
        Step::RecordPending => Some(Step::WriteHistory),
        Step::WriteHistory => Some(Step::Complete),
        Step::Complete => None,
    }
}

/// The run has not failed, and nothing was left behind.
#[verifier::opaque]
spec fn unspoilt(s: RunView, snapshot: bool, phase: Phase, read: Seq<ManifestEntryView>) -> bool {
    &&& s.phase == phase
    &&& s.snapshot == snapshot
    &&& s.failure is None
    &&& s.note is None
    &&& s.copied == read
    &&& phase == Phase::At(Step::PollAfter) ==> s.matches
}

proof fn lemma_forward(
    s: RunView,
    event: Event,
    now: Seq<char>,
    snapshot: bool,
    step: Step,
    read: Seq<ManifestEntryView>,
    agrees: bool,
)
    requires
        unspoilt(s, snapshot, Phase::At(step), read),
        answers(step_action(step), event),
        goes_well(step_action(step), event),
        event matches Event::Listed(Ok(m)) ==> (same_tree(read, entries_view(m.entries@))
            <==> agrees),
        step == Step::ListAgain ==> agrees,
    ensures
        unspoilt(
            after_event(s, event, now),
            snapshot,
            match succ(step, snapshot, agrees) {
                Some(t) => Phase::At(t),
                None => Phase::Ended,
            },
            match event {
                Event::Copied(Ok(o)) => entries_view(o.copied_manifest.entries@),
                _ => read,
            },
        ),
{
    reveal(unspoilt);
}

/// The phase of a run in which all goes well, after `i` events.
spec fn route(snapshot: bool, changed: bool, i: nat) -> Phase
    decreases i,
{
    if i == 0 {
        Phase::At(Step::CheckSource)
    } else {
        match route(snapshot, changed, (i - 1) as nat) {
            Phase::At(step) => match succ(step, snapshot, !(changed && i == 11)) {
                Some(t) => Phase::At(t),
                None => Phase::Ended,
            },
            other => other,
        }
    }
}

proof fn lemma_route(snapshot: bool, changed: bool, trace: Trace, n: nat, i: nat)
    requires
        is_run(snapshot, trace, n),
        !(snapshot && changed),
        forall|k: nat|
            k < n ==> goes_well(#[trigger] asked(snapshot, trace, k), trace[k as int].0)
                && lists_as_read(trace, k, changed),
        i <= n,
    ensures
        unspoilt(
            state(snapshot, trace, i),
            snapshot,
            route(snapshot, changed, i),
            last_read(trace, i),
        ),
    decreases i,
{
    if i == 0 {
        lemma_route_start(snapshot, trace);
    } else {
        let k = (i - 1) as nat;
        lemma_route(snapshot, changed, trace, n, k);
        lemma_state_next(snapshot, trace, k);
        lemma_state_ok(snapshot, trace, n, k);
        lemma_asked(snapshot, trace, k);
        assert(goes_well(asked(snapshot, trace, k), trace[k as int].0));
        lemma_route_step(
            state(snapshot, trace, k),
            trace[k as int].0,
            trace[k as int].1,
            snapshot,
            changed,
            k,
            last_read(trace, k),
        );
        assert(k + 1 == i);
    }
}

proof fn lemma_route_start(snapshot: bool, trace: Trace)
    ensures
        unspoilt(
            state(snapshot, trace, 0),
            snapshot,
            Phase::At(Step::CheckSource),
            Seq::empty(),
        ),
{
    reveal(unspoilt);
    reveal(state);
}

proof fn lemma_route_step(
    s: RunView,
    event: Event,
    now: Seq<char>,
    snapshot: bool,
    changed: bool,
    k: nat,
    read: Seq<ManifestEntryView>,
)
    requires
        unspoilt(s, snapshot, route(snapshot, changed, k), read),
        answers(phase_action(s.phase), event),
        goes_well(phase_action(s.phase), event),
        event matches Event::Listed(Ok(m)) ==> (same_tree(read, entries_view(m.entries@)) <==> !(
        changed && k == 10)),
    ensures
        unspoilt(
            after_event(s, event, now),
            snapshot,
            route(snapshot, changed, k + 1),
            match event {
                Event::Copied(Ok(o)) => entries_view(o.copied_manifest.entries@),
                _ => read,
            },
        ),
{
    assert(s.phase == route(snapshot, changed, k)) by {
        reveal(unspoilt);
    }
    assert(((k + 1) - 1) as nat == k);
    match s.phase {
        Phase::At(step) => {
            if step == Step::ListAgain && changed && k == 10 {
                reveal_with_fuel(route, 12);
            }
            lemma_forward(s, event, now, snapshot, step, read, !(changed && k == 10));
        },
        _ => {
            lemma_route_off(snapshot, changed, k);
            lemma_ended_stays(s, event, now, snapshot, read);
        },
    }
}

proof fn lemma_route_off(snapshot: bool, changed: bool, k: nat)
    ensures
        route(snapshot, changed, k) is At || route(snapshot, changed, k) == Phase::Ended,
    decreases k,
{
    if k > 0 {
        lemma_route_off(snapshot, changed, (k - 1) as nat);
    }
}

proof fn lemma_ended_stays(
    s: RunView,
    event: Event,
    now: Seq<char>,
    snapshot: bool,
    read: Seq<ManifestEntryView>,
)
    requires
        unspoilt(s, snapshot, Phase::Ended, read),
        answers(phase_action(Phase::Ended), event),
    ensures
        unspoilt(
            after_event(s, event, now),
            snapshot,
            Phase::Ended,
            match event {
                Event::Copied(Ok(o)) => entries_view(o.copied_manifest.entries@),
                _ => read,
            },
        ),
{
    reveal(unspoilt);
}

/// What is asked for when all goes well, as one list.
pub open spec fn whole_run(snapshot: bool, changed: bool) -> Seq<Action> {
    seq![
        Action::IsReparsePoint(Place::Source),
        Action::JournalBegin,
        Action::PollCancel,
        Action::CopyTree(Place::ReadRoot, Place::Tmp),
        Action::PollCancel,
        Action::JournalMark(Mark::Copied),
        Action::JournalMark(Mark::ManifestOk),
        Action::JournalMark(Mark::RenamingSource),
        Action::Rename(Place::Source, Place::Old),
        Action::JournalMark(Mark::SourceRenamed),
    ] + (if snapshot {
        Seq::empty()
    } else if changed {
        seq![
            Action::ListTree(Place::Old),
            Action::RemoveTree(Place::Tmp),
            Action::CopyTree(Place::Old, Place::Tmp),
            Action::ListTree(Place::Old),
        ]
    } else {
        seq![Action::ListTree(Place::Old)]
    }) + seq![
        Action::JournalMark(Mark::IncrementalSynced),
        Action::MakeParent(Place::Target),
        Action::Rename(Place::Tmp, Place::Target),
        Action::CreateJunction,
        Action::JunctionResolves,
        Action::JournalMark(Mark::JunctionCreated),
        Action::WriteRecord(MigrationStatus::Active),
        Action::JournalMark(Mark::RecordWritten),
        Action::Recycle(Place::Old),
        Action::JournalMark(Mark::OldRecycled),
        Action::WriteHistory,
        Action::JournalComplete,
    ]
}

proof fn lemma_whole_run(snapshot: bool, changed: bool, i: nat)
    requires
        !(snapshot && changed),
    ensures
        phase_action(route(snapshot, changed, i)) == if i < whole_run(snapshot, changed).len() {
            whole_run(snapshot, changed)[i as int]
        } else {
            Action::Stop
        },
        i >= whole_run(snapshot, changed).len() ==> route(snapshot, changed, i) == Phase::Ended,
    decreases i,
{
    if i > 26 {
        lemma_whole_run(snapshot, changed, (i - 1) as nat);
    } else if snapshot {
        lemma_run_snapshot(i);
    } else if changed {
        lemma_run_changed(i);
    } else {
        lemma_run_plain(i);
    }
}

proof fn lemma_run_snapshot(i: nat)
    requires
        i <= 26,
    ensures
        phase_action(route(true, false, i)) == if i < whole_run(true, false).len() {
            whole_run(true, false)[i as int]
        } else {
            Action::Stop
        },
        i >= whole_run(true, false).len() ==> route(true, false, i) == Phase::Ended,
{
    assert(route(true, false, 0) == Phase::At(Step::CheckSource));
    assert(route(true, false, 1) == Phase::At(Step::Begin));
    assert(route(true, false, 2) == Phase::At(Step::PollBefore));
    assert(route(true, false, 3) == Phase::At(Step::Copy));
    assert(route(true, false, 4) == Phase::At(Step::PollAfter));
    assert(route(true, false, 5) == Phase::At(Step::MarkCopied));
    assert(route(true, false, 6) == Phase::At(Step::MarkVerified));
    assert(route(true, false, 7) == Phase::At(Step::MarkRenaming));
    assert(route(true, false, 8) == Phase::At(Step::RenameSource));
    assert(route(true, false, 9) == Phase::At(Step::MarkRenamed));
    assert(route(true, false, 10) == Phase::At(Step::MarkSnapshotSynced));
    assert(route(true, false, 11) == Phase::At(Step::MakeParent));
    assert(route(true, false, 12) == Phase::At(Step::RenameTmp));
    assert(route(true, false, 13) == Phase::At(Step::CreateLink));
    assert(route(true, false, 14) == Phase::At(Step::CheckLink));
    assert(route(true, false, 15) == Phase::At(Step::MarkLinked));
    assert(route(true, false, 16) == Phase::At(Step::Record));
    assert(route(true, false, 17) == Phase::At(Step::MarkRecorded));
    assert(route(true, false, 18) == Phase::At(Step::Recycle));
    assert(route(true, false, 19) == Phase::At(Step::MarkRecycled));
    assert(route(true, false, 20) == Phase::At(Step::WriteHistory));
    assert(route(true, false, 21) == Phase::At(Step::Complete));
    assert(route(true, false, 22) == Phase::Ended);
    assert(route(true, false, 23) == Phase::Ended);
    assert(route(true, false, 24) == Phase::Ended);
    assert(route(true, false, 25) == Phase::Ended);
    assert(route(true, false, 26) == Phase::Ended);
    let list = whole_run(true, false);
    assert(list.len() == 22);
    if i == 0 {
        assert(list[0] == step_action(Step::CheckSource));
    } else if i == 1 {
        assert(list[1] == step_action(Step::Begin));
    } else if i == 2 {
        assert(list[2] == step_action(Step::PollBefore));
    } else if i == 3 {
        assert(list[3] == step_action(Step::Copy));
    } else if i == 4 {
        assert(list[4] == step_action(Step::PollAfter));
    } else if i == 5 {
        assert(list[5] == step_action(Step::MarkCopied));
    } else if i == 6 {
        assert(list[6] == step_action(Step::MarkVerified));
    } else if i == 7 {
        assert(list[7] == step_action(Step::MarkRenaming));
    } else if i == 8 {
        assert(list[8] == step_action(Step::RenameSource));
    } else if i == 9 {
        assert(list[9] == step_action(Step::MarkRenamed));
    } else if i == 10 {
        assert(list[10] == step_action(Step::MarkSnapshotSynced));
    } else if i == 11 {
        assert(list[11] == step_action(Step::MakeParent));
    } else if i == 12 {
        assert(list[12] == step_action(Step::RenameTmp));
    } else if i == 13 {
        assert(list[13] == step_action(Step::CreateLink));
    } else if i == 14 {
        assert(list[14] == step_action(Step::CheckLink));
    } else if i == 15 {
        assert(list[15] == step_action(Step::MarkLinked));
    } else if i == 16 {
        assert(list[16] == step_action(Step::Record));
    } else if i == 17 {
        assert(list[17] == step_action(Step::MarkRecorded));
    } else if i == 18 {
        assert(list[18] == step_action(Step::Recycle));
    } else if i == 19 {
        assert(list[19] == step_action(Step::MarkRecycled));
    } else if i == 20 {
        assert(list[20] == step_action(Step::WriteHistory));
    } else if i == 21 {
        assert(list[21] == step_action(Step::Complete));
    } else if i == 22 {
    } else if i == 23 {
    } else if i == 24 {
    } else if i == 25 {
    } else if i == 26 {
    }
}

proof fn lemma_run_changed(i: nat)
    requires
        i <= 26,
    ensures
        phase_action(route(false, true, i)) == if i < whole_run(false, true).len() {
            whole_run(false, true)[i as int]
        } else {
            Action::Stop
        },
        i >= whole_run(false, true).len() ==> route(false, true, i) == Phase::Ended,
{
    assert(route(false, true, 0) == Phase::At(Step::CheckSource));
    assert(route(false, true, 1) == Phase::At(Step::Begin));
    assert(route(false, true, 2) == Phase::At(Step::PollBefore));
    assert(route(false, true, 3) == Phase::At(Step::Copy));
    assert(route(false, true, 4) == Phase::At(Step::PollAfter));
    assert(route(false, true, 5) == Phase::At(Step::MarkCopied));
    assert(route(false, true, 6) == Phase::At(Step::MarkVerified));
    assert(route(false, true, 7) == Phase::At(Step::MarkRenaming));
    assert(route(false, true, 8) == Phase::At(Step::RenameSource));
    assert(route(false, true, 9) == Phase::At(Step::MarkRenamed));
    assert(route(false, true, 10) == Phase::At(Step::ListOld));
    assert(route(false, true, 11) == Phase::At(Step::ClearTmp));
    assert(route(false, true, 12) == Phase::At(Step::CopyAgain));
    assert(route(false, true, 13) == Phase::At(Step::ListAgain));
    assert(route(false, true, 14) == Phase::At(Step::MarkSynced));
    assert(route(false, true, 15) == Phase::At(Step::MakeParent));
    assert(route(false, true, 16) == Phase::At(Step::RenameTmp));
    assert(route(false, true, 17) == Phase::At(Step::CreateLink));
    assert(route(false, true, 18) == Phase::At(Step::CheckLink));
    assert(route(false, true, 19) == Phase::At(Step::MarkLinked));
    assert(route(false, true, 20) == Phase::At(Step::Record));
    assert(route(false, true, 21) == Phase::At(Step::MarkRecorded));
    assert(route(false, true, 22) == Phase::At(Step::Recycle));
    assert(route(false, true, 23) == Phase::At(Step::MarkRecycled));
    assert(route(false, true, 24) == Phase::At(Step::WriteHistory));
    assert(route(false, true, 25) == Phase::At(Step::Complete));
    assert(route(false, true, 26) == Phase::Ended);
    let list = whole_run(false, true);
    assert(list.len() == 26);
    if i == 0 {
        assert(list[0] == step_action(Step::CheckSource));
    } else if i == 1 {
        assert(list[1] == step_action(Step::Begin));
    } else if i == 2 {
        assert(list[2] == step_action(Step::PollBefore));
    } else if i == 3 {
        assert(list[3] == step_action(Step::Copy));
    } else if i == 4 {
        assert(list[4] == step_action(Step::PollAfter));
    } else if i == 5 {
        assert(list[5] == step_action(Step::MarkCopied));
    } else if i == 6 {
        assert(list[6] == step_action(Step::MarkVerified));
    } else if i == 7 {
        assert(list[7] == step_action(Step::MarkRenaming));
    } else if i == 8 {
        assert(list[8] == step_action(Step::RenameSource));
    } else if i == 9 {
        assert(list[9] == step_action(Step::MarkRenamed));
    } else if i == 10 {
        assert(list[10] == step_action(Step::ListOld));
    } else if i == 11 {
        assert(list[11] == step_action(Step::ClearTmp));
    } else if i == 12 {
        assert(list[12] == step_action(Step::CopyAgain));
    } else if i == 13 {
        assert(list[13] == step_action(Step::ListAgain));
    } else if i == 14 {
        assert(list[14] == step_action(Step::MarkSynced));
    } else if i == 15 {
        assert(list[15] == step_action(Step::MakeParent));
    } else if i == 16 {
        assert(list[16] == step_action(Step::RenameTmp));
    } else if i == 17 {
        assert(list[17] == step_action(Step::CreateLink));
    } else if i == 18 {
        assert(list[18] == step_action(Step::CheckLink));
    } else if i == 19 {
        assert(list[19] == step_action(Step::MarkLinked));
    } else if i == 20 {
        assert(list[20] == step_action(Step::Record));
    } else if i == 21 {
        assert(list[21] == step_action(Step::MarkRecorded));
    } else if i == 22 {
        assert(list[22] == step_action(Step::Recycle));
    } else if i == 23 {
        assert(list[23] == step_action(Step::MarkRecycled));
    } else if i == 24 {
        assert(list[24] == step_action(Step::WriteHistory));
    } else if i == 25 {
        assert(list[25] == step_action(Step::Complete));
    } else if i == 26 {
    }
}

proof fn lemma_run_plain(i: nat)
    requires
        i <= 26,
    ensures
        phase_action(route(false, false, i)) == if i < whole_run(false, false).len() {
            whole_run(false, false)[i as int]
        } else {
            Action::Stop
        },
        i >= whole_run(false, false).len() ==> route(false, false, i) == Phase::Ended,
{
    assert(route(false, false, 0) == Phase::At(Step::CheckSource));
    assert(route(false, false, 1) == Phase::At(Step::Begin));
    assert(route(false, false, 2) == Phase::At(Step::PollBefore));
    assert(route(false, false, 3) == Phase::At(Step::Copy));
    assert(route(false, false, 4) == Phase::At(Step::PollAfter));
    assert(route(false, false, 5) == Phase::At(Step::MarkCopied));
    assert(route(false, false, 6) == Phase::At(Step::MarkVerified));
    assert(route(false, false, 7) == Phase::At(Step::MarkRenaming));
    assert(route(false, false, 8) == Phase::At(Step::RenameSource));
    assert(route(false, false, 9) == Phase::At(Step::MarkRenamed));
    assert(route(false, false, 10) == Phase::At(Step::ListOld));
    assert(route(false, false, 11) == Phase::At(Step::MarkSynced));
    assert(route(false, false, 12) == Phase::At(Step::MakeParent));
    assert(route(false, false, 13) == Phase::At(Step::RenameTmp));
    assert(route(false, false, 14) == Phase::At(Step::CreateLink));
    assert(route(false, false, 15) == Phase::At(Step::CheckLink));
    assert(route(false, false, 16) == Phase::At(Step::MarkLinked));
    assert(route(false, false, 17) == Phase::At(Step::Record));
    assert(route(false, false, 18) == Phase::At(Step::MarkRecorded));
    assert(route(false, false, 19) == Phase::At(Step::Recycle));
    assert(route(false, false, 20) == Phase::At(Step::MarkRecycled));
    assert(route(false, false, 21) == Phase::At(Step::WriteHistory));
    assert(route(false, false, 22) == Phase::At(Step::Complete));
    assert(route(false, false, 23) == Phase::Ended);
    assert(route(false, false, 24) == Phase::Ended);
    assert(route(false, false, 25) == Phase::Ended);
    assert(route(false, false, 26) == Phase::Ended);
    let list = whole_run(false, false);
    assert(list.len() == 23);
    if i == 0 {
        assert(list[0] == step_action(Step::CheckSource));
    } else if i == 1 {
        assert(list[1] == step_action(Step::Begin));
    } else if i == 2 {
        assert(list[2] == step_action(Step::PollBefore));
    } else if i == 3 {
        assert(list[3] == step_action(Step::Copy));
    } else if i == 4 {
        assert(list[4] == step_action(Step::PollAfter));
    } else if i == 5 {
        assert(list[5] == step_action(Step::MarkCopied));
    } else if i == 6 {
        assert(list[6] == step_action(Step::MarkVerified));
    } else if i == 7 {
        assert(list[7] == step_action(Step::MarkRenaming));
    } else if i == 8 {
        assert(list[8] == step_action(Step::RenameSource));
    } else if i == 9 {
        assert(list[9] == step_action(Step::MarkRenamed));
    } else if i == 10 {
        assert(list[10] == step_action(Step::ListOld));
    } else if i == 11 {
        assert(list[11] == step_action(Step::MarkSynced));
    } else if i == 12 {
        assert(list[12] == step_action(Step::MakeParent));
    } else if i == 13 {
        assert(list[13] == step_action(Step::RenameTmp));
    } else if i == 14 {
        assert(list[14] == step_action(Step::CreateLink));
    } else if i == 15 {
        assert(list[15] == step_action(Step::CheckLink));
    } else if i == 16 {
        assert(list[16] == step_action(Step::MarkLinked));
    } else if i == 17 {
        assert(list[17] == step_action(Step::Record));
    } else if i == 18 {
        assert(list[18] == step_action(Step::MarkRecorded));
    } else if i == 19 {
        assert(list[19] == step_action(Step::Recycle));
    } else if i == 20 {
        assert(list[20] == step_action(Step::MarkRecycled));
    } else if i == 21 {
        assert(list[21] == step_action(Step::WriteHistory));
    } else if i == 22 {
        assert(list[22] == step_action(Step::Complete));
    } else if i == 23 {
    } else if i == 24 {
    } else if i == 25 {
    } else if i == 26 {
    }
}

/// When all goes well, the run asks for everything that belongs to a migration, in
/// the one order, each thing once, and then ends with the record of the migration.
/// Where the source changed while it was copied, and only there, it is copied again.
pub proof fn law_all_goes_well(
    snapshot: bool,
    changed: bool,
    trace: Trace,
    n: nat,
    i: nat,
    plan: MigratePlan,
    r: Result<(Migration, OperationOutcome), (AppError, OperationOutcome)>,
)
    requires
        is_run(snapshot, trace, n),
        !(snapshot && changed),
        forall|k: nat|
            k < n ==> goes_well(#[trigger] asked(snapshot, trace, k), trace[k as int].0)
                && lists_as_read(trace, k, changed),
        i <= n,
    ensures
        asked(snapshot, trace, i) == if i < whole_run(snapshot, changed).len() {
            whole_run(snapshot, changed)[i as int]
        } else {
            Action::Stop
        },
        i >= whole_run(snapshot, changed).len() ==> run_at(snapshot, trace, i).phase
            == Phase::Ended,
        i >= whole_run(snapshot, changed).len() && ends_as(
            run_at(snapshot, trace, i),
            plan,
            r,
        ) ==> is_whole_success(plan, r),
{
    lemma_route(snapshot, changed, trace, n, i);
    lemma_whole_run(snapshot, changed, i);
    lemma_state(snapshot, trace, i);
    lemma_success(
        state(snapshot, trace, i),
        snapshot,
        route(snapshot, changed, i),
        last_read(trace, i),
        plan,
        r,
    );
}

/// The migration is reported as done: the record is active, and names the source, the
/// target and the old data.
pub open spec fn is_whole_success(
    plan: MigratePlan,
    r: Result<(Migration, OperationOutcome), (AppError, OperationOutcome)>,
) -> bool {
    &&& r is Ok
    &&& r->Ok_0.1.source_changed
    &&& r->Ok_0.1.reason@ == "migrated"@
    &&& r->Ok_0.0@.id == plan.migration_id@
    &&& r->Ok_0.0@.status == MigrationStatus::Active
    &&& r->Ok_0.0@.source == replace_char(plan.src@, '/', '\\')
    &&& r->Ok_0.0@.target == replace_char(plan.target@, '/', '\\')
    &&& r->Ok_0.0@.old_path == replace_char(plan.old_path@, '/', '\\')
    &&& r->Ok_0.0@.source_volume_serial == plan.source_volume_serial@
    &&& r->Ok_0.0@.target_volume_serial == plan.target_volume_serial@
    &&& r->Ok_0.0@.preset == crate::models::opt_view(plan.preset_id)
    &&& r->Ok_0.0@.pending_cleanup is None
    &&& r->Ok_0.0@.schema_version == 1
}

proof fn lemma_success(
    s: RunView,
    snapshot: bool,
    phase: Phase,
    read: Seq<ManifestEntryView>,
    plan: MigratePlan,
    r: Result<(Migration, OperationOutcome), (AppError, OperationOutcome)>,
)
    requires
        unspoilt(s, snapshot, phase, read),
    ensures
        s.phase == phase,
        ends_as(s, plan, r) ==> is_whole_success(plan, r),
{
    reveal(unspoilt);
}

// ---------------------------------------------------------------------------
// Laws: copies that do not agree
// ---------------------------------------------------------------------------

proof fn lemma_bad_copy(s: RunView, event: Event, now: Seq<char>)
    requires
        run_ok(s),
        phase_action(s.phase) == Action::CopyTree(Place::ReadRoot, Place::Tmp),
        event matches Event::Copied(r) && r is Ok && !same_tree(
            entries_view(r->Ok_0.copied_manifest.entries@),
            entries_view(r->Ok_0.dst_manifest.entries@),
        ),
    ensures
        after_event(s, event, now).phase == Phase::At(Step::PollAfter),
        !after_event(s, event, now).matches,
{
    lemma_asked_at(s.phase);
}

proof fn lemma_bad_poll(s: RunView, event: Event, now: Seq<char>)
    requires
        run_ok(s),
        s.phase == Phase::At(Step::PollAfter),
        !s.matches,
        event == Event::Answer(false),
    ensures
        brings(s, (event, now), Failure::Mismatch),
{
    reveal(brings);
}

proof fn lemma_short_remedies()
    ensures
        remedies(Failure::Mismatch) == seq![Action::JournalFail(FailNote::ManifestMismatch)],
        remedies(Failure::SourceChanged) == seq![
            Action::Rename(Place::Old, Place::Source),
            Action::JournalFail(FailNote::SourceChanged),
        ],
        remedies(Failure::JournalEarly) == Seq::<Action>::empty(),
        remedies(Failure::JournalLate) == Seq::<Action>::empty(),
{
    reveal(remedies);
}

/// A copy that did not write what it read is kept, and the journal is told; the
/// source stays where it is.
pub proof fn law_bad_copy_is_kept(
    snapshot: bool,
    trace: Trace,
    n: nat,
    i: nat,
    j: nat,
    plan: MigratePlan,
    r: Result<(Migration, OperationOutcome), (AppError, OperationOutcome)>,
)
    requires
        is_run(snapshot, trace, n),
        i + 1 < j <= n,
        asked(snapshot, trace, i) == Action::CopyTree(Place::ReadRoot, Place::Tmp),
        trace[i as int].0 matches Event::Copied(c) && c is Ok && !same_tree(
            entries_view(c->Ok_0.copied_manifest.entries@),
            entries_view(c->Ok_0.dst_manifest.entries@),
        ),
        trace[i as int + 1].0 == Event::Answer(false),
    ensures
        asked(snapshot, trace, i + 1) == Action::PollCancel,
        asked(snapshot, trace, j) == if j == i + 2 {
            Action::JournalFail(FailNote::ManifestMismatch)
        } else {
            Action::Stop
        },
        j > i + 2 && ends_as(run_at(snapshot, trace, j), plan, r) ==> {
            &&& r is Err
            &&& !r->Err_0.1.source_changed
            &&& r->Err_0.1.reason@ == "migrate_rolled_back"@
            &&& is_success(trace[i as int + 2].0) ==> (r->Err_0.0 matches AppError::Migrate(m) && m@
                == "manifest 不一致，已保留 tmp 待人工确认"@)
        },
{
    lemma_asked(snapshot, trace, i);
    lemma_asked(snapshot, trace, i + 1);
    lemma_state(snapshot, trace, j);
    lemma_state_ok(snapshot, trace, n, i);
    lemma_state_ok(snapshot, trace, n, i + 1);
    lemma_bad_copy_core(snapshot, trace, i, j);
    lemma_mismatch_as(state(snapshot, trace, j), plan, r);
}

proof fn lemma_mismatch_as(
    s: RunView,
    plan: MigratePlan,
    r: Result<(Migration, OperationOutcome), (AppError, OperationOutcome)>,
)
    requires
        s.failure == Some(Failure::Mismatch),
    ensures
        ends_as(s, plan, r) ==> {
            &&& r is Err
            &&& !r->Err_0.1.source_changed
            &&& r->Err_0.1.reason@ == "migrate_rolled_back"@
            &&& !s.journal_broken ==> (r->Err_0.0 matches AppError::Migrate(m) && m@
                == "manifest 不一致，已保留 tmp 待人工确认"@)
        },
{
}

proof fn lemma_bad_copy_core(snapshot: bool, trace: Trace, i: nat, j: nat)
    requires
        run_ok(state(snapshot, trace, i)),
        run_ok(state(snapshot, trace, i + 1)),
        i + 1 < j,
        phase_action(state(snapshot, trace, i).phase) == Action::CopyTree(
            Place::ReadRoot,
            Place::Tmp,
        ),
        trace[i as int].0 matches Event::Copied(c) && c is Ok && !same_tree(
            entries_view(c->Ok_0.copied_manifest.entries@),
            entries_view(c->Ok_0.dst_manifest.entries@),
        ),
        trace[i as int + 1].0 == Event::Answer(false),
    ensures
        phase_action(state(snapshot, trace, i + 1).phase) == Action::PollCancel,
        phase_action(state(snapshot, trace, j).phase) == if j == i + 2 {
            Action::JournalFail(FailNote::ManifestMismatch)
        } else {
            Action::Stop
        },
        state(snapshot, trace, j).failure == Some(Failure::Mismatch),
        j > i + 2 && is_success(trace[i as int + 2].0) ==> !state(
            snapshot,
            trace,
            j,
        ).journal_broken,
{
    lemma_state_next(snapshot, trace, i);
    lemma_bad_copy(state(snapshot, trace, i), trace[i as int].0, trace[i as int].1);
    let m = i + 1;
    assert(trace[m as int] == trace[i as int + 1]);
    lemma_bad_poll(state(snapshot, trace, m), trace[m as int].0, trace[m as int].1);
    let k = (j - m - 1) as nat;
    lemma_short_remedies();
    lemma_fails(snapshot, trace, m, k, Failure::Mismatch);
    assert(m + 1 + k == j);
    if j > i + 2 && is_success(trace[i as int + 2].0) {
        assert(trace[m as int + 1] == trace[i as int + 2]);
        lemma_told(snapshot, trace, m, j, Failure::Mismatch);
    }
}

/// A source that changed again while it was copied once more is put back, and the
/// journal is told.
pub proof fn law_source_that_keeps_changing_is_put_back(
    snapshot: bool,
    trace: Trace,
    n: nat,
    i: nat,
    j: nat,
)
    requires
        is_run(snapshot, trace, n),
        i + 1 < j <= n,
        asked(snapshot, trace, i) == Action::CopyTree(Place::Old, Place::Tmp),
        goes_well(Action::CopyTree(Place::Old, Place::Tmp), trace[i as int].0),
        trace[i as int + 1].0 matches Event::Listed(l) && l is Ok && !same_tree(
            entries_view(trace[i as int].0->Copied_0->Ok_0.copied_manifest.entries@),
            entries_view(l->Ok_0.entries@),
        ),
    ensures
        asked(snapshot, trace, i + 1) == Action::ListTree(Place::Old),
        asked(snapshot, trace, j) == if j == i + 2 {
            Action::Rename(Place::Old, Place::Source)
        } else if j == i + 3 {
            Action::JournalFail(FailNote::SourceChanged)
        } else {
            Action::Stop
        },
        run_at(snapshot, trace, j).failure is Some,
{
    lemma_asked(snapshot, trace, i);
    lemma_asked(snapshot, trace, i + 1);
    lemma_state(snapshot, trace, j);
    lemma_state_ok(snapshot, trace, n, i);
    lemma_state_ok(snapshot, trace, n, i + 1);
    lemma_changing_core(snapshot, trace, i, j);
}

proof fn lemma_again(s: RunView, event: Event, now: Seq<char>)
    requires
        run_ok(s),
        phase_action(s.phase) == Action::CopyTree(Place::Old, Place::Tmp),
        goes_well(Action::CopyTree(Place::Old, Place::Tmp), event),
    ensures
        after_event(s, event, now).phase == Phase::At(Step::ListAgain),
        after_event(s, event, now).copied == entries_view(
            event->Copied_0->Ok_0.copied_manifest.entries@,
        ),
{
    lemma_asked_at(s.phase);
}

proof fn lemma_changed_again(s: RunView, event: Event, now: Seq<char>)
    requires
        run_ok(s),
        s.phase == Phase::At(Step::ListAgain),
        event matches Event::Listed(l) && l is Ok && !same_tree(
            s.copied,
            entries_view(l->Ok_0.entries@),
        ),
    ensures
        brings(s, (event, now), Failure::SourceChanged),
{
    reveal(brings);
}

proof fn lemma_changing_core(snapshot: bool, trace: Trace, i: nat, j: nat)
    requires
        run_ok(state(snapshot, trace, i)),
        run_ok(state(snapshot, trace, i + 1)),
        i + 1 < j,
        phase_action(state(snapshot, trace, i).phase) == Action::CopyTree(Place::Old, Place::Tmp),
        goes_well(Action::CopyTree(Place::Old, Place::Tmp), trace[i as int].0),
        trace[i as int + 1].0 matches Event::Listed(l) && l is Ok && !same_tree(
            entries_view(trace[i as int].0->Copied_0->Ok_0.copied_manifest.entries@),
            entries_view(l->Ok_0.entries@),
        ),
    ensures
        phase_action(state(snapshot, trace, i + 1).phase) == Action::ListTree(Place::Old),
        phase_action(state(snapshot, trace, j).phase) == if j == i + 2 {
            Action::Rename(Place::Old, Place::Source)
        } else if j == i + 3 {
            Action::JournalFail(FailNote::SourceChanged)
        } else {
            Action::Stop
        },
        state(snapshot, trace, j).failure == Some(Failure::SourceChanged),
{
    lemma_state_next(snapshot, trace, i);
    lemma_again(state(snapshot, trace, i), trace[i as int].0, trace[i as int].1);
    let m = i + 1;
    assert(trace[m as int] == trace[i as int + 1]);
    lemma_changed_again(state(snapshot, trace, m), trace[m as int].0, trace[m as int].1);
    let k = (j - m - 1) as nat;
    lemma_short_remedies();
    lemma_fails(snapshot, trace, m, k, Failure::SourceChanged);
    assert(m + 1 + k == j);
}

// ---------------------------------------------------------------------------
// Laws: old data that cannot be removed, and a journal that cannot be told
// ---------------------------------------------------------------------------

proof fn lemma_left(s: RunView, event: Event, now: Seq<char>)
    requires
        run_ok(s),
    ensures
        phase_action(s.phase) == Action::Recycle(Place::Old) && (event matches Event::Done(d)
            && d is Err) ==> {
            let t = after_event(s, event, now);
            &&& t.phase == Phase::At(Step::RecordPending)
            &&& t.failure is None
            &&& t.note == Some(event->Done_0->Err_0.text())
        },
        s.phase == Phase::At(Step::RecordPending) ==> {
            let t = after_event(s, event, now);
            &&& t.phase == Phase::At(Step::WriteHistory)
            &&& t.failure is None
            &&& t.note == s.note
        },
        s.phase == Phase::At(Step::WriteHistory) && (event matches Event::Done(d) && d is Ok) ==> {
            let t = after_event(s, event, now);
            &&& t.phase == Phase::At(Step::Complete)
            &&& t.failure is None
            &&& t.note == s.note
        },
        s.phase == Phase::At(Step::Complete) && (event matches Event::Done(d) && d is Ok) ==> {
            let t = after_event(s, event, now);
            &&& t.phase == Phase::Ended
            &&& t.failure is None
            &&& t.note == s.note
        },
{
    lemma_asked_at(s.phase);
}

/// Old data that cannot be removed stops nothing: the record is written once more.
pub proof fn law_old_data_left_is_recorded(snapshot: bool, trace: Trace, n: nat, i: nat)
    requires
        is_run(snapshot, trace, n),
        i + 2 <= n,
        asked(snapshot, trace, i) == Action::Recycle(Place::Old),
        trace[i as int].0 matches Event::Done(d) && d is Err,
    ensures
        asked(snapshot, trace, i + 1) == Action::WriteRecord(MigrationStatus::OldPendingDelete),
        asked(snapshot, trace, i + 2) == Action::WriteHistory,
{
    lemma_state_ok(snapshot, trace, n, i);
    lemma_state_ok(snapshot, trace, n, i + 1);
    lemma_left_first(snapshot, trace, i);
}

/// The record that is handed back says that old data is left, and why.
pub proof fn law_old_data_left_is_reported(
    snapshot: bool,
    trace: Trace,
    n: nat,
    i: nat,
    plan: MigratePlan,
    r: Result<(Migration, OperationOutcome), (AppError, OperationOutcome)>,
)
    requires
        is_run(snapshot, trace, n),
        i + 4 <= n,
        asked(snapshot, trace, i) == Action::Recycle(Place::Old),
        trace[i as int].0 matches Event::Done(d) && d is Err,
        trace[i as int + 2].0 matches Event::Done(d) && d is Ok,
        trace[i as int + 3].0 matches Event::Done(d) && d is Ok,
    ensures
        run_at(snapshot, trace, i + 4).phase == Phase::Ended,
        ends_as(run_at(snapshot, trace, i + 4), plan, r) ==> {
            &&& r is Ok
            &&& r->Ok_0.1.reason@ == "migrated"@
            &&& r->Ok_0.0@.status == MigrationStatus::OldPendingDelete
            &&& r->Ok_0.0@.pending_cleanup == Some(trace[i as int].0->Done_0->Err_0.text())
        },
{
    lemma_asked(snapshot, trace, i);
    lemma_state(snapshot, trace, i + 4);
    lemma_state_ok(snapshot, trace, n, i);
    lemma_state_ok(snapshot, trace, n, i + 1);
    lemma_state_ok(snapshot, trace, n, i + 2);
    lemma_state_ok(snapshot, trace, n, i + 3);
    lemma_left_core(snapshot, trace, i);
    lemma_left_as(state(snapshot, trace, i + 4), plan, r);
}

proof fn lemma_left_first(snapshot: bool, trace: Trace, i: nat)
    requires
        run_ok(state(snapshot, trace, i)),
        run_ok(state(snapshot, trace, i + 1)),
        asked(snapshot, trace, i) == Action::Recycle(Place::Old),
        trace[i as int].0 matches Event::Done(d) && d is Err,
    ensures
        asked(snapshot, trace, i + 1) == Action::WriteRecord(MigrationStatus::OldPendingDelete),
        asked(snapshot, trace, i + 2) == Action::WriteHistory,
{
    let b = i + 1;
    lemma_asked(snapshot, trace, i);
    lemma_asked(snapshot, trace, b);
    lemma_asked(snapshot, trace, i + 2);
    lemma_state_next(snapshot, trace, i);
    lemma_left(state(snapshot, trace, i), trace[i as int].0, trace[i as int].1);
    lemma_state_next(snapshot, trace, b);
    lemma_left(state(snapshot, trace, b), trace[b as int].0, trace[b as int].1);
}

proof fn lemma_left_as(
    s: RunView,
    plan: MigratePlan,
    r: Result<(Migration, OperationOutcome), (AppError, OperationOutcome)>,
)
    requires
        s.failure is None,
        s.note is Some,
    ensures
        ends_as(s, plan, r) ==> {
            &&& r is Ok
            &&& r->Ok_0.1.reason@ == "migrated"@
            &&& r->Ok_0.0@.status == MigrationStatus::OldPendingDelete
            &&& r->Ok_0.0@.pending_cleanup == s.note
        },
{
}

proof fn lemma_left_core(snapshot: bool, trace: Trace, i: nat)
    requires
        run_ok(state(snapshot, trace, i)),
        run_ok(state(snapshot, trace, i + 1)),
        run_ok(state(snapshot, trace, i + 2)),
        run_ok(state(snapshot, trace, i + 3)),
        phase_action(state(snapshot, trace, i).phase) == Action::Recycle(Place::Old),
        trace[i as int].0 matches Event::Done(d) && d is Err,
        trace[i as int + 2].0 matches Event::Done(d) && d is Ok,
        trace[i as int + 3].0 matches Event::Done(d) && d is Ok,
    ensures
        state(snapshot, trace, i + 1).phase == Phase::At(Step::RecordPending),
        state(snapshot, trace, i + 2).phase == Phase::At(Step::WriteHistory),
        state(snapshot, trace, i + 3).phase == Phase::At(Step::Complete),
        state(snapshot, trace, i + 4).phase == Phase::Ended,
        state(snapshot, trace, i + 4).failure is None,
        state(snapshot, trace, i + 4).note == Some(trace[i as int].0->Done_0->Err_0.text()),
{
    let (b, c, d) = (i + 1, i + 2, i + 3);
    lemma_state_next(snapshot, trace, i);
    lemma_left(state(snapshot, trace, i), trace[i as int].0, trace[i as int].1);
    lemma_state_next(snapshot, trace, b);
    lemma_left(state(snapshot, trace, b), trace[b as int].0, trace[b as int].1);
    assert(trace[c as int] == trace[i as int + 2]);
    lemma_state_next(snapshot, trace, c);
    lemma_left(state(snapshot, trace, c), trace[c as int].0, trace[c as int].1);
    assert(trace[d as int] == trace[i as int + 3]);
    lemma_state_next(snapshot, trace, d);
    lemma_left(state(snapshot, trace, d), trace[d as int].0, trace[d as int].1);
}

proof fn lemma_mute(s: RunView, event: Event, now: Seq<char>)
    requires
        run_ok(s),
        phase_action(s.phase) is JournalMark,
        phase_action(s.phase) != Action::JournalMark(Mark::PendingRecord),
        event matches Event::Done(d) && d is Err,
    ensures
        brings(s, (event, now), Failure::JournalEarly) || brings(
            s,
            (event, now),
            Failure::JournalLate,
        ),
{
    reveal(brings);
    lemma_marks_at(s.phase);
}

proof fn lemma_marks_at(phase: Phase)
    ensures
        phase_action(phase) is JournalMark && phase_action(phase) != Action::JournalMark(
            Mark::PendingRecord,
        ) ==> phase is At,
{
}

/// Where the journal cannot be told of a stage, nothing more is done: the task stays
/// in it for the recovery.
pub proof fn law_nothing_is_done_untold(snapshot: bool, trace: Trace, n: nat, i: nat, j: nat)
    requires
        is_run(snapshot, trace, n),
        i < j <= n,
        asked(snapshot, trace, i) is JournalMark,
        asked(snapshot, trace, i) != Action::JournalMark(Mark::PendingRecord),
        trace[i as int].0 matches Event::Done(d) && d is Err,
    ensures
        asked(snapshot, trace, j) == Action::Stop,
        run_at(snapshot, trace, j).failure is Some,
{
    lemma_asked(snapshot, trace, i);
    lemma_state(snapshot, trace, j);
    lemma_state_ok(snapshot, trace, n, i);
    lemma_mute_core(snapshot, trace, i, j);
}

proof fn lemma_mute_core(snapshot: bool, trace: Trace, i: nat, j: nat)
    requires
        run_ok(state(snapshot, trace, i)),
        i < j,
        phase_action(state(snapshot, trace, i).phase) is JournalMark,
        phase_action(state(snapshot, trace, i).phase) != Action::JournalMark(Mark::PendingRecord),
        trace[i as int].0 matches Event::Done(d) && d is Err,
    ensures
        phase_action(state(snapshot, trace, j).phase) == Action::Stop,
        state(snapshot, trace, j).failure is Some,
{
    lemma_mute(state(snapshot, trace, i), trace[i as int].0, trace[i as int].1);
    lemma_short_remedies();
    let k = (j - i - 1) as nat;
    assert(i + 1 + k == j);
    if brings(state(snapshot, trace, i), trace[i as int], Failure::JournalEarly) {
        lemma_fails(snapshot, trace, i, k, Failure::JournalEarly);
    } else {
        lemma_fails(snapshot, trace, i, k, Failure::JournalLate);
    }
}

} // verus!
