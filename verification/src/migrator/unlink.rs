//! Removing a link without moving the data back.

use super::plan::{answers, history_entry, Action, Event};
use crate::error::AppError;
use crate::models::{HistoryEntry, HistoryEntryView, Migration, OperationOutcome};
use vstd::prelude::*;
use vstd::string::*;

verus! {

/// Where the removal of a link stands.
#[derive(Debug, Clone, Copy, PartialEq, Eq, Structural)]
pub enum Phase {
    RemoveLink,
    RemoveRecord,
    WriteHistory,
    Ended,
}

/// What is to be done in a phase.
pub open spec fn phase_action(phase: Phase) -> Action {
    match phase {
        Phase::RemoveLink => Action::RemoveJunction,
        Phase::RemoveRecord => Action::RemoveRecord,
        Phase::WriteHistory => Action::WriteHistory,
        Phase::Ended => Action::Stop,
    }
}

/// Model of a [`BreakLinkRun`].
pub struct RunView {
    pub phase: Phase,
    /// The phase in which it failed, and the error.
    pub failure: Option<(Phase, AppError)>,
}

/// The removal after an event.
pub open spec fn after_event(s: RunView, event: Event) -> RunView {
    match event {
        Event::Done(Err(e)) => if s.phase == Phase::Ended {
            s
        } else {
            RunView { phase: Phase::Ended, failure: Some((s.phase, e)) }
        },
        _ => RunView {
            phase: match s.phase {
                Phase::RemoveLink => Phase::RemoveRecord,
                Phase::RemoveRecord => Phase::WriteHistory,
                Phase::WriteHistory => Phase::Ended,
                Phase::Ended => Phase::Ended,
            },
            ..s
        },
    }
}

/// The removal of a link on its way.
pub struct BreakLinkRun {
    phase: Phase,
    failure: Option<(Phase, AppError)>,
}

impl View for BreakLinkRun {
    type V = RunView;

    closed spec fn view(&self) -> RunView {
        RunView { phase: self.phase, failure: self.failure }
    }
}

impl BreakLinkRun {
    /// Begins the removal.
    pub fn start() -> (r: Self)
        ensures
            r@ == (RunView { phase: Phase::RemoveLink, failure: None }),
    {
        BreakLinkRun { phase: Phase::RemoveLink, failure: None }
    }

    /// What is to be done next.
    pub fn action(&self) -> (r: Action)
        ensures
            r == phase_action(self@.phase),
    {
        match self.phase {
            Phase::RemoveLink => Action::RemoveJunction,
            Phase::RemoveRecord => Action::RemoveRecord,
            Phase::WriteHistory => Action::WriteHistory,
            Phase::Ended => Action::Stop,
        }
    }

    /// Takes in what became of the last action.
    pub fn advance(&mut self, event: Event)
        requires
            answers(phase_action(old(self)@.phase), event),
        ensures
            final(self)@ == after_event(old(self)@, event),
    {
        match event {
            Event::Done(Err(e)) => {
                if self.phase != Phase::Ended {
                    self.failure = Some((self.phase, e));
                    self.phase = Phase::Ended;
                }
            },
            _ => {
                self.phase = match self.phase {
                    Phase::RemoveLink => Phase::RemoveRecord,
                    Phase::RemoveRecord => Phase::WriteHistory,
                    Phase::WriteHistory => Phase::Ended,
                    Phase::Ended => Phase::Ended,
                };
            },
        }
    }

    /// The entry for the history, at the given time.
    pub fn history(mig: &Migration, now: String) -> (r: HistoryEntry)
        ensures
            r@ == (HistoryEntryView {
                op: "break_link"@,
                id: mig.id@,
                src: mig.source@,
                dst: mig.target@,
                result: "ok"@,
                time: now@,
                duration_sec: 0,
            }),
    {
        history_entry(
            "break_link",
            mig.id.as_str(),
            mig.source.as_str(),
            mig.target.as_str(),
            now,
        )
    }

    /// How the removal ended. The source has changed once the link is gone.
    pub fn finish(self) -> (r: Result<OperationOutcome, (AppError, OperationOutcome)>)
        requires
            self@.phase == Phase::Ended,
        ensures
            match self@.failure {
                None => r is Ok && r->Ok_0.source_changed && r->Ok_0.reason@ == "broken_link"@,
                Some((p, e)) => {
                    &&& r is Err
                    &&& r->Err_0.0 == e
                    &&& r->Err_0.1.source_changed == (p != Phase::RemoveLink)
                    &&& r->Err_0.1.reason@ == if p == Phase::RemoveLink {
                        "break_link_rolled_back"@
                    } else {
                        "break_link_partial"@
                    }
                },
            },
    {
        match self.failure {
            None => Ok(OperationOutcome::changed("broken_link")),
            Some((p, e)) => if p == Phase::RemoveLink {
                Err((e, OperationOutcome::unchanged("break_link_rolled_back")))
            } else {
                Err((e, OperationOutcome::changed("break_link_partial")))
            },
        }
    }
}

/// Removing a link never touches the data: nothing is copied, renamed, deleted
/// or moved to the recycle bin.
pub proof fn law_data_is_not_touched(phase: Phase)
    ensures
        !(phase_action(phase) is CopyTree),
        !(phase_action(phase) is Rename),
        !(phase_action(phase) is RemoveTree),
        !(phase_action(phase) is Recycle),
{
}

} // verus!
