//! What a migration and a restoration come to together.

use super::migrate;
use super::plan::{answers, Action, Event};
use super::restore;
use crate::file_ops::{
    entries_view, law_same_tree_is_an_equivalence, same_tree, ManifestEntryView,
};
use vstd::prelude::*;

verus! {

/// What the last copy among the first `n` events read and wrote.
pub open spec fn last_copy(trace: migrate::Trace, n: nat) -> Option<
    (Seq<ManifestEntryView>, Seq<ManifestEntryView>),
>
    decreases n,
{
    if n == 0 {
        None
    } else {
        match trace[n - 1].0 {
            Event::Copied(Ok(o)) => Some(
                (entries_view(o.copied_manifest.entries@), entries_view(o.dst_manifest.entries@)),
            ),
            _ => last_copy(trace, (n - 1) as nat),
        }
    }
}

/// A migration remembers its last copy.
proof fn lemma_last_copy(snapshot: bool, trace: migrate::Trace, n: nat)
    requires
        migrate::is_run(snapshot, trace, n),
    ensures
        match last_copy(trace, n) {
            Some(c) => migrate::run_at(snapshot, trace, n).copied == c.0 && migrate::run_at(
                snapshot,
                trace,
                n,
            ).matches == same_tree(c.0, c.1),
            None => !migrate::run_at(snapshot, trace, n).matches,
        },
    decreases n,
{
    if n > 0 {
        let m = (n - 1) as nat;
        lemma_last_copy(snapshot, trace, m);
        let s = migrate::run_at(snapshot, trace, m);
        let event = trace[m as int].0;
        assert(answers(migrate::phase_action(s.phase), event));
        lemma_copy_step(s, event, trace[m as int].1);
    }
}

/// A copy is remembered, and nothing else changes what is remembered of it.
proof fn lemma_copy_step(s: migrate::RunView, event: Event, now: Seq<char>)
    requires
        answers(migrate::phase_action(s.phase), event),
    ensures
        match event {
            Event::Copied(Ok(o)) => {
                &&& migrate::after_event(s, event, now).copied == entries_view(
                    o.copied_manifest.entries@,
                )
                &&& migrate::after_event(s, event, now).matches == same_tree(
                    entries_view(o.copied_manifest.entries@),
                    entries_view(o.dst_manifest.entries@),
                )
            },
            _ => migrate::after_event(s, event, now).copied == s.copied && migrate::after_event(
                s,
                event,
                now,
            ).matches == s.matches,
        },
{
}

/// What is restored is what was migrated: where the data in the repository has
/// not changed since it was copied, the tree that is put back in place is the
/// one that the source held when it was last looked at before the link took
/// its place.
pub proof fn law_restored_tree_is_the_migrated_one(
    there: migrate::Trace,
    n: nat,
    back: Seq<Event>,
    m: nat,
)
    requires
        migrate::is_run(false, there, n),
        migrate::phase_action(migrate::run_at(false, there, n).phase) == Action::CreateJunction,
        restore::is_run(back, m),
        restore::phase_action(restore::run_at(back, m).phase) == Action::RemoveJunction,
        last_copy(there, n) matches Some(c) ==> same_tree(c.1, restore::listings(back, m)[0]),
    ensures
        migrate::last_listed(there, n) is Some,
        restore::listings(back, m).len() == 2,
        same_tree(migrate::last_listed(there, n)->0, restore::listings(back, m)[1]),
{
    migrate::law_linked_data_is_complete(false, there, n);
    restore::law_restored_data_is_complete(back, m);
    lemma_last_copy(false, there, n);
    let source = migrate::last_listed(there, n)->0;
    let (read, written) = last_copy(there, n)->0;
    let kept = restore::listings(back, m)[0];
    let restored = restore::listings(back, m)[1];
    law_same_tree_is_an_equivalence(read, source, read);
    law_same_tree_is_an_equivalence(source, read, written);
    law_same_tree_is_an_equivalence(source, written, kept);
    law_same_tree_is_an_equivalence(source, kept, restored);
}

} // verus!
