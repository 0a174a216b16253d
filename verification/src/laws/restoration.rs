//! Moving a directory back: what is asked for in which order, what follows when
//! something goes wrong, and what is reported in the end.

use crate::error::AppError;
use crate::file_ops::{entries_view, same_tree, ManifestEntryView};
use crate::migrator::plan::{answers, Action, Event, FailNote, Mark, Place};
use crate::migrator::migrate::is_success;
use crate::migrator::restore::{
    after_cleanup, after_event, cleanup_at, ends_as, enter_failure, is_run, lemma_run_ok,
    phase_action, run_at, run_ok, step_action, Failure, Phase, RunView, Step,
};
use crate::models::{MigrationStatus, OperationOutcome};
use vstd::prelude::*;
use vstd::string::*;

verus! {

/// How a restoration is reported.
pub type Report = Result<OperationOutcome, (AppError, OperationOutcome)>;

/// What a run asks for after its first `i` events.
#[verifier::opaque]
pub open spec fn asked(trace: Seq<Event>, i: nat) -> Action {
    phase_action(run_at(trace, i).phase)
}

/// The run after its first `i` events.
#[verifier::opaque]
spec fn state(trace: Seq<Event>, i: nat) -> RunView {
    run_at(trace, i)
}

proof fn lemma_state(trace: Seq<Event>, i: nat)
    ensures
        state(trace, i) == run_at(trace, i),
        asked(trace, i) == phase_action(state(trace, i).phase),
{
    reveal(state);
    reveal(asked);
}

proof fn lemma_asked(trace: Seq<Event>, i: nat)
    ensures
        asked(trace, i) == phase_action(state(trace, i).phase),
{
    reveal(state);
    reveal(asked);
}

proof fn lemma_state_next(trace: Seq<Event>, i: nat)
    ensures
        state(trace, i + 1) == after_event(state(trace, i), trace[i as int]),
{
    reveal(state);
    assert((i + 1 - 1) as nat == i);
}

proof fn lemma_state_ok(trace: Seq<Event>, n: nat, i: nat)
    requires
        is_run(trace, n),
        i <= n,
    ensures
        run_ok(state(trace, i)),
        i < n ==> answers(phase_action(state(trace, i).phase), trace[i as int]),
{
    reveal(state);
    lemma_run_ok(trace, i);
}

// ---------------------------------------------------------------------------
// After a failure
// ---------------------------------------------------------------------------

/// The phase `k` events after the failure.
spec fn unwound(f: Failure, k: nat) -> Phase
    decreases k,
{
    if k == 0 {
        enter_failure(f)
    } else {
        match unwound(f, (k - 1) as nat) {
            Phase::Unwinding(g, i) => if i < 255 && cleanup_at(g, (i + 1) as u8) is Some {
                Phase::Unwinding(g, (i + 1) as u8)
            } else {
                after_cleanup(g)
            },
            Phase::Closing(_) => Phase::Ended,
            other => other,
        }
    }
}

proof fn lemma_unwound_not_at(f: Failure, k: nat)
    ensures
        !(unwound(f, k) is At),
    decreases k,
{
    if k > 0 {
        lemma_unwound_not_at(f, (k - 1) as nat);
    }
}

proof fn lemma_unwound_step(s: RunView, event: Event, f: Failure, k: nat)
    requires
        s.phase == unwound(f, k),
        s.failure == Some(f),
    ensures
        ({
            let t = after_event(s, event);
            let refused = event matches Event::Done(r) && r is Err;
            &&& t.phase == unwound(f, k + 1)
            &&& t.failure == Some(f)
            &&& s.phase is Closing ==> t.journal_broken == (s.journal_broken || refused)
            &&& !(s.phase is Closing) ==> t.journal_broken == s.journal_broken
            &&& !(s.phase is Closing && refused) ==> t.error == s.error
        }),
{
    lemma_unwound_not_at(f, k);
    assert(((k + 1) - 1) as nat == k);
}

/// What follows a failure, one event after the other.
proof fn lemma_unwinds(trace: Seq<Event>, m: nat, k: nat, f: Failure)
    requires
        state(trace, m).phase == enter_failure(f),
        state(trace, m).failure == Some(f),
    ensures
        state(trace, m + k).phase == unwound(f, k),
        state(trace, m + k).failure == Some(f),
    decreases k,
{
    if k > 0 {
        let j = (k - 1) as nat;
        lemma_unwinds(trace, m, j, f);
        lemma_state_next(trace, m + j);
        lemma_unwound_step(state(trace, m + j), trace[(m + j) as int], f, j);
        assert(m + k == m + j + 1);
    }
}

/// What is asked for after a failure, and then nothing more.
#[verifier::opaque]
spec fn remedies(f: Failure) -> Seq<Action> {
    match f {
        Failure::LinkInvalid => seq![Action::JournalFail(FailNote::LinkInvalid)],
        Failure::Cancelled => seq![Action::JournalCancel],
        Failure::CopyStopped => seq![Action::RemoveTree(Place::Tmp), Action::JournalCancel],
        Failure::CopyFailed => seq![
            Action::RemoveTree(Place::Tmp),
            Action::JournalFail(FailNote::RestoreCopyFailed),
        ],
        Failure::ListFailed => seq![
            Action::RemoveTree(Place::Tmp),
            Action::JournalFail(FailNote::RestoreCopyFailed),
        ],
        Failure::Mismatch => seq![
            Action::RemoveTree(Place::Tmp),
            Action::JournalFail(FailNote::ManifestMismatch),
        ],
        Failure::RemoveLinkFailed => seq![
            Action::RemoveTree(Place::Tmp),
            Action::JournalFail(FailNote::RemoveLinkFailed),
        ],
        Failure::SwitchFailed => seq![
            Action::CreateJunction,
            Action::JournalFail(FailNote::SwitchFailed),
        ],
        _ => Seq::empty(),
    }
}

proof fn lemma_remedies(f: Failure, k: nat)
    ensures
        phase_action(unwound(f, k)) == if k < remedies(f).len() {
            remedies(f)[k as int]
        } else {
            Action::Stop
        },
        k >= remedies(f).len() ==> unwound(f, k) == Phase::Ended,
    decreases k,
{
    reveal(remedies);
    reveal_with_fuel(unwound, 4);
    if k > 3 {
        lemma_remedies(f, (k - 1) as nat);
    }
}

/// Closing comes last.
proof fn lemma_closing_last(f: Failure, k: nat)
    ensures
        unwound(f, k) is Closing ==> k + 1 == remedies(f).len(),
{
    reveal(remedies);
    lemma_remedies(f, k);
    lemma_remedies(f, k + 1);
    assert(((k + 1) - 1) as nat == k);
    if unwound(f, k) is Closing {
        reveal_with_fuel(unwound, 4);
        if k >= remedies(f).len() {
            assert(unwound(f, k) == Phase::Ended);
        }
    }
}

/// The event brings the failure about.
#[verifier::opaque]
spec fn brings(s: RunView, event: Event, f: Failure) -> bool {
    let t = after_event(s, event);
    s.phase is At && t.phase == enter_failure(f) && t.failure == Some(f)
}

/// The error that an event brings.
pub open spec fn error_in(e: Event) -> Option<AppError> {
    match e {
        Event::Done(Err(e)) => Some(e),
        Event::Copied(Err(e)) => Some(e),
        Event::Listed(Err(e)) => Some(e),
        _ => None,
    }
}

proof fn lemma_brings(s: RunView, event: Event, f: Failure)
    requires
        brings(s, event, f),
        run_ok(s),
    ensures
        ({
            let t = after_event(s, event);
            &&& t.phase == enter_failure(f)
            &&& t.failure == Some(f)
            &&& !t.journal_broken
            &&& t.error == error_in(event)
        }),
{
    reveal(brings);
}

/// The run fails at event `i`.
proof fn lemma_fails(trace: Seq<Event>, i: nat, k: nat, f: Failure)
    requires
        brings(state(trace, i), trace[i as int], f),
    ensures
        phase_action(state(trace, i + 1 + k).phase) == if k < remedies(f).len() {
            remedies(f)[k as int]
        } else {
            Action::Stop
        },
        state(trace, i + 1 + k).failure == Some(f),
        k >= remedies(f).len() ==> state(trace, i + 1 + k).phase == Phase::Ended,
{
    reveal(brings);
    lemma_state_next(trace, i);
    lemma_unwinds(trace, i + 1, k, f);
    lemma_remedies(f, k);
}

/// Where the journal could be told of the failure, no error replaces it.
proof fn lemma_told(trace: Seq<Event>, i: nat, j: nat, f: Failure)
    requires
        run_ok(state(trace, i)),
        i < j,
        brings(state(trace, i), trace[i as int], f),
        remedies(f).len() > 0 && i + remedies(f).len() < j ==> is_success(
            trace[i as int + remedies(f).len()],
        ),
    ensures
        !state(trace, j).journal_broken,
        state(trace, j).error == error_in(trace[i as int]),
    decreases j,
{
    lemma_state_next(trace, i);
    lemma_brings(state(trace, i), trace[i as int], f);
    if j > i + 1 {
        let m = (j - 1) as nat;
        let k = (m - i - 1) as nat;
        lemma_told(trace, i, m, f);
        lemma_unwinds(trace, i + 1, k, f);
        assert(i + 1 + k == m);
        lemma_closing_last(f, k);
        lemma_state_next(trace, m);
        lemma_unwound_step(state(trace, m), trace[m as int], f, k);
    }
}

// ---------------------------------------------------------------------------
// Laws: trouble
// ---------------------------------------------------------------------------

/// What has to follow an action that went wrong: the copy goes as long as the link
/// stands, the link is made again where the copy could not take its place, what
/// happened is told to the journal, and nothing else is done.
pub open spec fn after_trouble(a: Action, e: Event) -> Option<Seq<Action>> {
    let failed = e matches Event::Done(r) && r is Err;
    let stopped = e matches Event::Copied(r) && r is Err && r->Err_0 is Cancelled;
    let broken = e matches Event::Copied(r) && r is Err && !(r->Err_0 is Cancelled);
    match a {
        Action::JournalBegin
        | Action::JournalMark(_)
        | Action::RemoveRecord
        | Action::WriteHistory
        | Action::JournalComplete => if failed {
            Some(Seq::empty())
        } else {
            None
        },
        Action::JunctionResolves => if e == Event::Answer(false) {
            Some(seq![Action::JournalFail(FailNote::LinkInvalid)])
        } else {
            None
        },
        Action::PollCancel => if e == Event::Answer(true) {
            Some(seq![Action::JournalCancel])
        } else {
            None
        },
        Action::CopyTree(_, _) => if stopped {
            Some(seq![Action::RemoveTree(Place::Tmp), Action::JournalCancel])
        } else if broken {
            Some(
                seq![
                    Action::RemoveTree(Place::Tmp),
                    Action::JournalFail(FailNote::RestoreCopyFailed),
                ],
            )
        } else {
            None
        },
        Action::ListTree(_) => if e matches Event::Listed(r) && r is Err {
            Some(
                seq![
                    Action::RemoveTree(Place::Tmp),
                    Action::JournalFail(FailNote::RestoreCopyFailed),
                ],
            )
        } else {
            None
        },
        Action::RemoveJunction => if failed {
            Some(
                seq![
                    Action::RemoveTree(Place::Tmp),
                    Action::JournalFail(FailNote::RemoveLinkFailed),
                ],
            )
        } else {
            None
        },
        Action::Rename(_, _) => if failed {
            Some(seq![Action::CreateJunction, Action::JournalFail(FailNote::SwitchFailed)])
        } else {
            None
        },
        _ => None,
    }
}

/// The action comes before the link is gone.
pub open spec fn is_early(a: Action) -> bool {
    match a {
        Action::JournalBegin
        | Action::JunctionResolves
        | Action::PollCancel
        | Action::CopyTree(_, _)
        | Action::ListTree(_)
        | Action::RemoveJunction => true,
        Action::JournalMark(m) => m == Mark::RestoreCopied || m == Mark::RestoreManifestOk,
        _ => false,
    }
}

/// The failure that trouble with an action leads to.
spec fn failure_of(a: Action, e: Event) -> Failure {
    let stopped = e matches Event::Copied(r) && r is Err && r->Err_0 is Cancelled;
    match a {
        Action::JournalBegin => Failure::BeginRefused,
        Action::JournalMark(_) => if is_early(a) {
            Failure::JournalEarly
        } else {
            Failure::JournalLate
        },
        Action::RemoveRecord => Failure::RecordFailed,
        Action::WriteHistory => Failure::HistoryFailed,
        Action::JournalComplete => Failure::CompleteFailed,
        Action::JunctionResolves => Failure::LinkInvalid,
        Action::PollCancel => Failure::Cancelled,
        Action::CopyTree(_, _) => if stopped {
            Failure::CopyStopped
        } else {
            Failure::CopyFailed
        },
        Action::ListTree(_) => Failure::ListFailed,
        Action::RemoveJunction => Failure::RemoveLinkFailed,
        _ => Failure::SwitchFailed,
    }
}

proof fn lemma_trouble_at(phase: Phase, event: Event)
    requires
        after_trouble(phase_action(phase), event) is Some,
    ensures
        phase is At,
        after_trouble(phase_action(phase), event) == Some(
            remedies(failure_of(phase_action(phase), event)),
        ),
{
    reveal(remedies);
}

proof fn lemma_trouble_step(s: RunView, event: Event)
    requires
        run_ok(s),
        answers(phase_action(s.phase), event),
        after_trouble(phase_action(s.phase), event) is Some,
    ensures
        brings(s, event, failure_of(phase_action(s.phase), event)),
        after_trouble(phase_action(s.phase), event) == Some(
            remedies(failure_of(phase_action(s.phase), event)),
        ),
{
    reveal(brings);
    lemma_trouble_at(s.phase, event);
}

proof fn lemma_trouble(trace: Seq<Event>, i: nat, j: nat)
    requires
        run_ok(state(trace, i)),
        answers(phase_action(state(trace, i).phase), trace[i as int]),
        after_trouble(phase_action(state(trace, i).phase), trace[i as int]) is Some,
        i < j,
    ensures
        ({
            let a = phase_action(state(trace, i).phase);
            let list = after_trouble(a, trace[i as int])->0;
            let t = state(trace, j);
            let told = list.len() == 0 || is_success(trace[i as int + list.len()]);
            &&& phase_action(t.phase) == if j - i - 1 < list.len() {
                list[j - i - 1]
            } else {
                Action::Stop
            }
            &&& j - i - 1 >= list.len() ==> t.phase == Phase::Ended
            &&& t.failure == Some(failure_of(a, trace[i as int]))
            &&& told ==> !t.journal_broken && t.error == error_in(trace[i as int])
        }),
{
    let s = state(trace, i);
    let event = trace[i as int];
    let f = failure_of(phase_action(s.phase), event);
    let list = after_trouble(phase_action(s.phase), event)->0;
    lemma_trouble_step(s, event);
    let k = (j - i - 1) as nat;
    lemma_fails(trace, i, k, f);
    assert(i + 1 + k == j);
    if list.len() == 0 || is_success(trace[i as int + list.len()]) {
        lemma_told(trace, i, j, f);
    }
}

/// Whatever goes wrong, just what has to follow follows, and then nothing more.
pub proof fn law_trouble_is_dealt_with(trace: Seq<Event>, n: nat, i: nat, j: nat)
    requires
        is_run(trace, n),
        i < j <= n,
        after_trouble(asked(trace, i), trace[i as int]) is Some,
    ensures
        ({
            let list = after_trouble(asked(trace, i), trace[i as int])->0;
            asked(trace, j) == if j - i - 1 < list.len() {
                list[j - i - 1]
            } else {
                Action::Stop
            }
        }),
{
    lemma_asked(trace, i);
    lemma_asked(trace, j);
    lemma_state_ok(trace, n, i);
    lemma_trouble(trace, i, j);
}

/// The error that went with the trouble is reported, as long as the journal could be
/// told; the source counts as changed exactly once the link is gone, and the reason
/// says whether it was rolled back or is left halfway.
pub proof fn law_trouble_is_reported(trace: Seq<Event>, n: nat, i: nat, r: Report)
    requires
        is_run(trace, n),
        i < n,
        after_trouble(asked(trace, i), trace[i as int]) is Some,
        run_at(trace, n).phase == Phase::Ended,
        ends_as(run_at(trace, n), r),
    ensures
        is_report_of(asked(trace, i), trace[i as int], told_at(trace, i), r),
{
    lemma_asked(trace, i);
    lemma_state(trace, n);
    lemma_state_ok(trace, n, i);
    lemma_trouble(trace, i, n);
    lemma_report(asked(trace, i), trace[i as int], told_at(trace, i), state(trace, n), r);
}

/// The journal could be told of the trouble at event `i`, or need not be told.
pub open spec fn told_at(trace: Seq<Event>, i: nat) -> bool {
    let list = after_trouble(asked(trace, i), trace[i as int])->0;
    list.len() == 0 || is_success(trace[i as int + list.len()])
}

/// `r` reports the trouble with the action.
pub open spec fn is_report_of(a: Action, e: Event, told: bool, r: Report) -> bool {
    &&& r is Err
    &&& r->Err_0.1.source_changed == !is_early(a)
    &&& r->Err_0.1.reason@ == if !is_early(a) {
        "restore_partial"@
    } else if a == Action::PollCancel && told {
        "restore_canceled"@
    } else if a == Action::PollCancel && r->Err_0.1.reason@ == "restore_canceled"@ {
        "restore_canceled"@
    } else {
        "restore_rolled_back"@
    }
    &&& told && error_in(e) is Some ==> Some(r->Err_0.0) == error_in(e)
    &&& told && a == Action::PollCancel ==> r->Err_0.0 is Cancelled
    &&& told && a == Action::JunctionResolves ==> (r->Err_0.0 matches AppError::Junction(m) && m@
        == "junction 已失效，无法还原"@)
}

proof fn lemma_report(a: Action, e: Event, told: bool, s: RunView, r: Report)
    requires
        after_trouble(a, e) is Some,
        s.failure == Some(failure_of(a, e)),
        ends_as(s, r),
        told ==> !s.journal_broken && s.error == error_in(e),
    ensures
        is_report_of(a, e, told, r),
{
}

// ---------------------------------------------------------------------------
// Laws: a run in which all goes well
// ---------------------------------------------------------------------------

/// The action went well.
pub open spec fn goes_well(a: Action, e: Event) -> bool {
    match a {
        Action::PollCancel => e == Event::Answer(false),
        Action::JunctionResolves => e == Event::Answer(true),
        Action::CopyTree(_, _) => e matches Event::Copied(r) && r is Ok,
        Action::ListTree(_) => e matches Event::Listed(r) && r is Ok,
        _ => e matches Event::Done(r) && r is Ok,
    }
}

/// What is asked for when all goes well, as one list.
pub open spec fn whole_run() -> Seq<Action> {
    seq![
        Action::JournalBegin,
        Action::JunctionResolves,
        Action::PollCancel,
        Action::CopyTree(Place::ReadRoot, Place::Tmp),
        Action::ListTree(Place::ReadRoot),
        Action::ListTree(Place::Tmp),
        Action::JournalMark(Mark::RestoreCopied),
        Action::JournalMark(Mark::RestoreManifestOk),
        Action::RemoveJunction,
        Action::JournalMark(Mark::JunctionRemoved),
        Action::Rename(Place::Tmp, Place::Source),
        Action::JournalMark(Mark::RestoreSwitched),
        Action::Recycle(Place::Target),
        Action::JournalMark(Mark::RestoreTargetRecycled),
        Action::RemoveRecord,
        Action::WriteHistory,
        Action::JournalComplete,
    ]
}

/// The step that follows when all goes well.
spec fn succ(step: Step) -> Option<Step> {
    match step {
        Step::Begin => Some(Step::CheckLink),
        Step::CheckLink => Some(Step::PollBefore),
        Step::PollBefore => Some(Step::Copy),
        Step::Copy => Some(Step::ListSource),
        Step::ListSource => Some(Step::ListCopy),
        Step::ListCopy => Some(Step::MarkCopied),
        Step::MarkCopied => Some(Step::MarkVerified),
        Step::MarkVerified => Some(Step::RemoveLink),
        Step::RemoveLink => Some(Step::MarkRemoved),
        Step::MarkRemoved => Some(Step::Switch),
        Step::Switch => Some(Step::MarkSwitched),
        Step::MarkSwitched => Some(Step::RecycleTarget),
        Step::RecycleTarget => Some(Step::MarkRecycled),
        Step::MarkRecycled => Some(Step::RemoveRecord),
        Step::RemoveRecord => Some(Step::WriteHistory),
        Step::RecordPending => Some(Step::WriteHistory),
        Step::WriteHistory => Some(Step::Complete),
        Step::Complete => None,
    }
}

/// The phase of a run in which all goes well, after `i` events.
spec fn route(i: nat) -> Phase
    decreases i,
{
    if i == 0 {
        Phase::At(Step::Begin)
    } else {
        match route((i - 1) as nat) {
            Phase::At(step) => match succ(step) {
                Some(t) => Phase::At(t),
                None => Phase::Ended,
            },
            other => other,
        }
    }
}

/// The run has not failed.
#[verifier::opaque]
spec fn unspoilt(s: RunView, phase: Phase, found: Seq<ManifestEntryView>) -> bool {
    &&& s.phase == phase
    &&& s.failure is None
    &&& phase == Phase::At(Step::ListCopy) ==> s.listed == found
}

proof fn lemma_forward(
    s: RunView,
    event: Event,
    step: Step,
    found: Seq<ManifestEntryView>,
    later: Seq<ManifestEntryView>,
)
    requires
        unspoilt(s, Phase::At(step), found),
        answers(step_action(step), event),
        goes_well(step_action(step), event),
        step == Step::ListCopy ==> same_tree(found, entries_view(event->Listed_0->Ok_0.entries@)),
        step == Step::ListSource ==> later == entries_view(event->Listed_0->Ok_0.entries@),
    ensures
        unspoilt(
            after_event(s, event),
            match succ(step) {
                Some(t) => Phase::At(t),
                None => Phase::Ended,
            },
            later,
        ),
{
    reveal(unspoilt);
}

proof fn lemma_ended_stays(s: RunView, event: Event, found: Seq<ManifestEntryView>)
    requires
        unspoilt(s, Phase::Ended, found),
    ensures
        unspoilt(after_event(s, event), Phase::Ended, found),
{
    reveal(unspoilt);
}

proof fn lemma_start(trace: Seq<Event>, found: Seq<ManifestEntryView>)
    ensures
        unspoilt(state(trace, 0), Phase::At(Step::Begin), found),
{
    reveal(unspoilt);
    reveal(state);
}

/// What the listing of the data to restore found.
pub open spec fn found_in(trace: Seq<Event>) -> Seq<ManifestEntryView> {
    entries_view(trace[4]->Listed_0->Ok_0.entries@)
}

proof fn lemma_route(trace: Seq<Event>, n: nat, i: nat)
    requires
        is_run(trace, n),
        forall|k: nat| k < n ==> goes_well(#[trigger] asked(trace, k), trace[k as int]),
        n > 5 ==> same_tree(found_in(trace), entries_view(trace[5]->Listed_0->Ok_0.entries@)),
        i <= n,
    ensures
        unspoilt(state(trace, i), route(i), found_in(trace)),
    decreases i,
{
    if i == 0 {
        lemma_start(trace, found_in(trace));
    } else {
        let k = (i - 1) as nat;
        lemma_route(trace, n, k);
        lemma_state_next(trace, k);
        lemma_state_ok(trace, n, k);
        lemma_asked(trace, k);
        assert(goes_well(asked(trace, k), trace[k as int]));
        lemma_route_step(state(trace, k), trace, k);
        assert(k + 1 == i);
    }
}

proof fn lemma_route_step(s: RunView, trace: Seq<Event>, k: nat)
    requires
        unspoilt(s, route(k), found_in(trace)),
        answers(phase_action(s.phase), trace[k as int]),
        goes_well(phase_action(s.phase), trace[k as int]),
        k == 5 ==> same_tree(
            found_in(trace),
            entries_view(trace[5]->Listed_0->Ok_0.entries@),
        ),
    ensures
        unspoilt(after_event(s, trace[k as int]), route(k + 1), found_in(trace)),
{
    assert(s.phase == route(k)) by {
        reveal(unspoilt);
    }
    assert(((k + 1) - 1) as nat == k);
    lemma_route_is(k);
    match s.phase {
        Phase::At(step) => {
            lemma_forward(s, trace[k as int], step, found_in(trace), found_in(trace));
        },
        _ => {
            lemma_ended_stays(s, trace[k as int], found_in(trace));
        },
    }
}

proof fn lemma_route_is(i: nat)
    ensures
        phase_action(route(i)) == if i < whole_run().len() {
            whole_run()[i as int]
        } else {
            Action::Stop
        },
        i >= whole_run().len() ==> route(i) == Phase::Ended,
        route(i) == Phase::At(Step::ListCopy) ==> i == 5,
        route(i) == Phase::At(Step::ListSource) ==> i == 4,
        route(i) is At || route(i) == Phase::Ended,
    decreases i,
{
    assert(route(0) == Phase::At(Step::Begin));
    assert(route(1) == Phase::At(Step::CheckLink));
    assert(route(2) == Phase::At(Step::PollBefore));
    assert(route(3) == Phase::At(Step::Copy));
    assert(route(4) == Phase::At(Step::ListSource));
    assert(route(5) == Phase::At(Step::ListCopy));
    assert(route(6) == Phase::At(Step::MarkCopied));
    assert(route(7) == Phase::At(Step::MarkVerified));
    assert(route(8) == Phase::At(Step::RemoveLink));
    assert(route(9) == Phase::At(Step::MarkRemoved));
    assert(route(10) == Phase::At(Step::Switch));
    assert(route(11) == Phase::At(Step::MarkSwitched));
    assert(route(12) == Phase::At(Step::RecycleTarget));
    assert(route(13) == Phase::At(Step::MarkRecycled));
    assert(route(14) == Phase::At(Step::RemoveRecord));
    assert(route(15) == Phase::At(Step::WriteHistory));
    assert(route(16) == Phase::At(Step::Complete));
    assert(route(17) == Phase::Ended);
    let list = whole_run();
    assert(list.len() == 17);
    if i > 17 {
        lemma_route_is((i - 1) as nat);
    } else if i == 0 {
        assert(list[0] == step_action(Step::Begin));
    } else if i == 1 {
        assert(list[1] == step_action(Step::CheckLink));
    } else if i == 2 {
        assert(list[2] == step_action(Step::PollBefore));
    } else if i == 3 {
        assert(list[3] == step_action(Step::Copy));
    } else if i == 4 {
        assert(list[4] == step_action(Step::ListSource));
    } else if i == 5 {
        assert(list[5] == step_action(Step::ListCopy));
    } else if i == 6 {
        assert(list[6] == step_action(Step::MarkCopied));
    } else if i == 7 {
        assert(list[7] == step_action(Step::MarkVerified));
    } else if i == 8 {
        assert(list[8] == step_action(Step::RemoveLink));
    } else if i == 9 {
        assert(list[9] == step_action(Step::MarkRemoved));
    } else if i == 10 {
        assert(list[10] == step_action(Step::Switch));
    } else if i == 11 {
        assert(list[11] == step_action(Step::MarkSwitched));
    } else if i == 12 {
        assert(list[12] == step_action(Step::RecycleTarget));
    } else if i == 13 {
        assert(list[13] == step_action(Step::MarkRecycled));
    } else if i == 14 {
        assert(list[14] == step_action(Step::RemoveRecord));
    } else if i == 15 {
        assert(list[15] == step_action(Step::WriteHistory));
    } else if i == 16 {
        assert(list[16] == step_action(Step::Complete));
    } else if i == 17 {
    }
}

/// When all goes well, the run asks for everything that belongs to a restoration, in
/// the one order, each thing once, and then ends as restored.
pub proof fn law_all_goes_well(trace: Seq<Event>, n: nat, i: nat, r: Report)
    requires
        is_run(trace, n),
        forall|k: nat| k < n ==> goes_well(#[trigger] asked(trace, k), trace[k as int]),
        n > 5 ==> same_tree(found_in(trace), entries_view(trace[5]->Listed_0->Ok_0.entries@)),
        i <= n,
    ensures
        asked(trace, i) == if i < whole_run().len() {
            whole_run()[i as int]
        } else {
            Action::Stop
        },
        i >= whole_run().len() && ends_as(run_at(trace, i), r) ==> r is Ok && r->Ok_0.source_changed
            && r->Ok_0.reason@ == "restored"@,
{
    lemma_route(trace, n, i);
    lemma_route_is(i);
    lemma_state(trace, i);
    lemma_restored(state(trace, i), route(i), found_in(trace), r);
}

proof fn lemma_restored(s: RunView, phase: Phase, found: Seq<ManifestEntryView>, r: Report)
    requires
        unspoilt(s, phase, found),
    ensures
        s.phase == phase,
        ends_as(s, r) ==> r is Ok && r->Ok_0.source_changed && r->Ok_0.reason@ == "restored"@,
{
    reveal(unspoilt);
}

// ---------------------------------------------------------------------------
// Laws: copies that do not agree, and data that cannot be removed
// ---------------------------------------------------------------------------

proof fn lemma_first_listing(s: RunView, event: Event)
    requires
        run_ok(s),
        phase_action(s.phase) == Action::ListTree(Place::ReadRoot),
        event matches Event::Listed(l) && l is Ok,
    ensures
        after_event(s, event).phase == Phase::At(Step::ListCopy),
        after_event(s, event).listed == entries_view(event->Listed_0->Ok_0.entries@),
{
    lemma_listing_at(s.phase);
}

proof fn lemma_listing_at(phase: Phase)
    ensures
        phase_action(phase) == Action::ListTree(Place::ReadRoot) ==> phase == Phase::At(
            Step::ListSource,
        ),
        phase_action(phase) == Action::Recycle(Place::Target) ==> phase == Phase::At(
            Step::RecycleTarget,
        ),
{
}

proof fn lemma_differs(s: RunView, event: Event)
    requires
        run_ok(s),
        s.phase == Phase::At(Step::ListCopy),
        event matches Event::Listed(l) && l is Ok && !same_tree(
            s.listed,
            entries_view(l->Ok_0.entries@),
        ),
    ensures
        brings(s, event, Failure::Mismatch),
{
    reveal(brings);
}

/// A copy that is not what lies in the repository is deleted, and the journal is
/// told; the link stays.
pub proof fn law_bad_copy_is_deleted(trace: Seq<Event>, n: nat, i: nat, j: nat, r: Report)
    requires
        is_run(trace, n),
        i + 1 < j <= n,
        asked(trace, i) == Action::ListTree(Place::ReadRoot),
        trace[i as int] matches Event::Listed(a) && a is Ok,
        trace[i as int + 1] matches Event::Listed(b) && b is Ok && !same_tree(
            entries_view(trace[i as int]->Listed_0->Ok_0.entries@),
            entries_view(b->Ok_0.entries@),
        ),
    ensures
        asked(trace, i + 1) == Action::ListTree(Place::Tmp),
        asked(trace, j) == if j == i + 2 {
            Action::RemoveTree(Place::Tmp)
        } else if j == i + 3 {
            Action::JournalFail(FailNote::ManifestMismatch)
        } else {
            Action::Stop
        },
        j > i + 3 && ends_as(run_at(trace, j), r) ==> r is Err && !r->Err_0.1.source_changed
            && r->Err_0.1.reason@ == "restore_rolled_back"@,
{
    lemma_state(trace, j);
    lemma_state_ok(trace, n, i);
    lemma_state_ok(trace, n, i + 1);
    lemma_differs_core(trace, i, j);
    lemma_mismatch_as(state(trace, j), r);
}

proof fn lemma_mismatch_as(s: RunView, r: Report)
    requires
        s.failure == Some(Failure::Mismatch),
    ensures
        ends_as(s, r) ==> r is Err && !r->Err_0.1.source_changed && r->Err_0.1.reason@
            == "restore_rolled_back"@,
{
}

proof fn lemma_differs_core(trace: Seq<Event>, i: nat, j: nat)
    requires
        run_ok(state(trace, i)),
        run_ok(state(trace, i + 1)),
        i + 1 < j,
        asked(trace, i) == Action::ListTree(Place::ReadRoot),
        trace[i as int] matches Event::Listed(a) && a is Ok,
        trace[i as int + 1] matches Event::Listed(b) && b is Ok && !same_tree(
            entries_view(trace[i as int]->Listed_0->Ok_0.entries@),
            entries_view(b->Ok_0.entries@),
        ),
    ensures
        asked(trace, i + 1) == Action::ListTree(Place::Tmp),
        asked(trace, j) == if j == i + 2 {
            Action::RemoveTree(Place::Tmp)
        } else if j == i + 3 {
            Action::JournalFail(FailNote::ManifestMismatch)
        } else {
            Action::Stop
        },
        state(trace, j).failure == Some(Failure::Mismatch),
{
    let m = i + 1;
    lemma_asked(trace, i);
    lemma_asked(trace, m);
    lemma_asked(trace, j);
    lemma_state_next(trace, i);
    lemma_first_listing(state(trace, i), trace[i as int]);
    assert(trace[m as int] == trace[i as int + 1]);
    lemma_differs(state(trace, m), trace[m as int]);
    let k = (j - m - 1) as nat;
    lemma_fails(trace, m, k, Failure::Mismatch);
    assert(m + 1 + k == j);
    assert(remedies(Failure::Mismatch) == seq![
        Action::RemoveTree(Place::Tmp),
        Action::JournalFail(FailNote::ManifestMismatch),
    ]) by {
        reveal(remedies);
    }
}

proof fn lemma_left(s: RunView, event: Event)
    requires
        run_ok(s),
    ensures
        phase_action(s.phase) == Action::Recycle(Place::Target) && (event matches Event::Done(d)
            && d is Err) ==> after_event(s, event).phase == Phase::At(Step::RecordPending),
        s.phase == Phase::At(Step::RecordPending) ==> after_event(s, event).phase == Phase::At(
            Step::WriteHistory,
        ),
{
    lemma_listing_at(s.phase);
}

/// Data in the repository that cannot be removed stops nothing: the record is kept
/// and says so.
pub proof fn law_data_left_is_recorded(trace: Seq<Event>, n: nat, i: nat)
    requires
        is_run(trace, n),
        i + 2 <= n,
        asked(trace, i) == Action::Recycle(Place::Target),
        trace[i as int] matches Event::Done(d) && d is Err,
    ensures
        asked(trace, i + 1) == Action::WriteRecord(MigrationStatus::TargetPendingDelete),
        asked(trace, i + 2) == Action::WriteHistory,
{
    lemma_state_ok(trace, n, i);
    lemma_state_ok(trace, n, i + 1);
    lemma_left_core(trace, i);
}

proof fn lemma_left_core(trace: Seq<Event>, i: nat)
    requires
        run_ok(state(trace, i)),
        run_ok(state(trace, i + 1)),
        asked(trace, i) == Action::Recycle(Place::Target),
        trace[i as int] matches Event::Done(d) && d is Err,
    ensures
        asked(trace, i + 1) == Action::WriteRecord(MigrationStatus::TargetPendingDelete),
        asked(trace, i + 2) == Action::WriteHistory,
{
    let m = i + 1;
    lemma_asked(trace, i);
    lemma_asked(trace, m);
    lemma_asked(trace, i + 2);
    lemma_state_next(trace, i);
    lemma_left(state(trace, i), trace[i as int]);
    lemma_state_next(trace, m);
    lemma_left(state(trace, m), trace[m as int]);
}

} // verus!
