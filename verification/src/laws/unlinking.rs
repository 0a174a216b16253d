//! Removing a link: what is asked for in which order, and what a failure comes to.

use crate::migrator::plan::{Action, Event};
use crate::migrator::unlink::{after_event, phase_action, Phase, RunView};
use vstd::prelude::*;

verus! {

/// The removal after the first `n` events.
pub open spec fn unlinking(trace: Seq<Event>, n: nat) -> RunView
    decreases n,
{
    if n == 0 {
        RunView { phase: Phase::RemoveLink, failure: None }
    } else {
        after_event(unlinking(trace, (n - 1) as nat), trace[n - 1])
    }
}

/// What is asked for after the first `n` events.
pub open spec fn asked(trace: Seq<Event>, n: nat) -> Action {
    phase_action(unlinking(trace, n).phase)
}

/// The event tells of a failure.
pub open spec fn is_trouble(e: Event) -> bool {
    e matches Event::Done(r) && r is Err
}

/// The link goes first, then the record, and the history is told last; where nothing
/// goes wrong the removal succeeds.
pub proof fn law_link_goes_first(trace: Seq<Event>)
    ensures
        asked(trace, 0) == Action::RemoveJunction,
        !is_trouble(trace[0]) ==> asked(trace, 1) == Action::RemoveRecord,
        !is_trouble(trace[0]) && !is_trouble(trace[1]) ==> asked(trace, 2) == Action::WriteHistory,
        !is_trouble(trace[0]) && !is_trouble(trace[1]) && !is_trouble(trace[2]) ==> asked(trace, 3)
            == Action::Stop && unlinking(trace, 3).failure is None,
{
    reveal_with_fuel(unlinking, 4);
}

/// After the first failure nothing more is done, and the removal ends with that failure.
pub proof fn law_failure_ends_the_removal(trace: Seq<Event>, i: nat, n: nat)
    requires
        i < 3,
        i < n,
        forall|j: int| 0 <= j < i ==> !is_trouble(#[trigger] trace[j]),
        is_trouble(trace[i as int]),
    ensures
        asked(trace, n) == Action::Stop,
        unlinking(trace, n).phase == Phase::Ended,
        unlinking(trace, n).failure is Some,
        (unlinking(trace, n).failure->0).1 == trace[i as int]->Done_0->Err_0,
        (unlinking(trace, n).failure->0).0 == Phase::RemoveLink <==> i == 0,
    decreases n,
{
    if n == i + 1 {
        reveal_with_fuel(unlinking, 4);
        if i > 0 {
            assert(!is_trouble(trace[0]));
        }
        if i > 1 {
            assert(!is_trouble(trace[1]));
        }
    } else {
        law_failure_ends_the_removal(trace, i, (n - 1) as nat);
    }
}

} // verus!
