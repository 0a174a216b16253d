//! The history of finished operations.

use crate::models::{history_view, HistoryEntry, HistoryEntryView};
use crate::sort::{precedes, sort_indices, sorts, ByText};
use crate::keys::lemma_places_covered;
use crate::text::{lemma_text_less_total, str_eq, str_less, text_less};
use vstd::prelude::*;

verus! {

/// The entry passes the filters: the operation, and the time from the first
/// bound on and before the second.
pub open spec fn passes(
    e: HistoryEntryView,
    op: Option<Seq<char>>,
    range: Option<(Seq<char>, Seq<char>)>,
) -> bool {
    &&& match op {
        Some(o) => e.op == o,
        None => true,
    }
    &&& match range {
        Some(r) => !text_less(e.time, r.0) && text_less(e.time, r.1),
        None => true,
    }
}

/// Those of the first `n` entries that pass the filters.
pub open spec fn passing(
    s: Seq<HistoryEntryView>,
    op: Option<Seq<char>>,
    range: Option<(Seq<char>, Seq<char>)>,
    n: nat,
) -> Seq<HistoryEntryView>
    decreases n,
{
    if n == 0 {
        Seq::empty()
    } else {
        let before = passing(s, op, range, (n - 1) as nat);
        if passes(s[n - 1], op, range) {
            before.push(s[n - 1])
        } else {
            before
        }
    }
}

/// `out` holds the entries by their time; entries of the same time keep their order.
pub open spec fn by_time(s: Seq<HistoryEntryView>, out: Seq<HistoryEntryView>) -> bool {
    exists|p: Seq<usize>| #[trigger] timed_by(s, out, p)
}

/// `out` holds the entries in the order `p`, which is by time and then by place.
pub open spec fn timed_by(
    s: Seq<HistoryEntryView>,
    out: Seq<HistoryEntryView>,
    p: Seq<usize>,
) -> bool {
    &&& p.len() == s.len()
    &&& out.len() == s.len()
    &&& p.no_duplicates()
    &&& forall|a: int| 0 <= a < p.len() ==> (#[trigger] p[a]) < s.len()
    &&& forall|a: int| 0 <= a < p.len() ==> #[trigger] out[a] == s[p[a] as int]
    &&& forall|a: int, b: int|
        0 <= a < b < p.len() ==> {
            let x = s[#[trigger] p[a] as int].time;
            let y = s[#[trigger] p[b] as int].time;
            text_less(x, y) || (!text_less(y, x) && p[a] < p[b])
        }
}

/// The history.
#[derive(Debug, Clone)]
pub struct History {
    entries: Vec<HistoryEntry>,
}

impl View for History {
    type V = Seq<HistoryEntryView>;

    closed spec fn view(&self) -> Seq<HistoryEntryView> {
        history_view(self.entries@)
    }
}

impl History {
    /// An empty history.
    pub fn new() -> (r: Self)
        ensures
            r@.len() == 0,
    {
        History { entries: Vec::new() }
    }

    /// The history with the given entries.
    pub fn from_entries(entries: Vec<HistoryEntry>) -> (r: Self)
        ensures
            r@ == history_view(entries@),
    {
        History { entries }
    }

    /// Adds an entry.
    pub fn append(&mut self, e: HistoryEntry)
        ensures
            final(self)@ == old(self)@.push(e@),
    {
        self.entries.push(e);
        assert(self@ =~= old(self)@.push(e@));
    }

    /// The entries that pass the filters, by time.
    pub fn list(&self, op_filter: Option<&str>, time_range: Option<(&str, &str)>) -> (r: Vec<
        HistoryEntry,
    >)
        ensures
            by_time(
                passing(
                    self@,
                    match op_filter {
                        Some(o) => Some(o@),
                        None => None,
                    },
                    match time_range {
                        Some(t) => Some((t.0@, t.1@)),
                        None => None,
                    },
                    self@.len(),
                ),
                history_view(r@),
            ),
    {
        let ghost s = self@;
        let ghost op = match op_filter {
            Some(o) => Some(o@),
            None => None,
        };
        let ghost range = match time_range {
            Some(t) => Some((t.0@, t.1@)),
            None => None,
        };
        let mut kept: Vec<usize> = Vec::new();
        let mut keys: Vec<ByText> = Vec::new();
        let mut i: usize = 0;
        let ghost mut all: Seq<HistoryEntryView> = Seq::empty();
        while i < self.entries.len()
            invariant
                i <= s.len(),
                s == self@,
                s.len() == self.entries@.len(),
                op == match op_filter {
                    Some(o) => Some(o@),
                    None => None,
                },
                range == match time_range {
                    Some(t) => Some((t.0@, t.1@)),
                    None => None,
                },
                all == passing(s, op, range, i as nat),
                kept@.len() == all.len(),
                keys@.len() == all.len(),
                forall|j: int|
                    0 <= j < kept@.len() ==> (#[trigger] kept@[j]) < s.len() && s[kept@[j] as int]
                        == all[j],
                forall|j: int| 0 <= j < keys@.len() ==> (#[trigger] keys@[j]).text@ == all[j].time,
            decreases s.len() - i,
        {
            let e: &HistoryEntry = &self.entries[i];
            assert(s[i as int] == e@);
            let op_ok: bool = match op_filter {
                Some(o) => str_eq(e.op.as_str(), o),
                None => true,
            };
            let time_ok: bool = match time_range {
                Some((from, to)) => !str_less(e.time.as_str(), from) && str_less(
                    e.time.as_str(),
                    to,
                ),
                None => true,
            };
            if op_ok && time_ok {
                kept.push(i);
                keys.push(ByText { text: e.time.clone() });
                proof {
                    all = all.push(s[i as int]);
                }
            }
            i += 1;
        }
        let p: Vec<usize> = sort_indices(&keys);
        let mut out: Vec<HistoryEntry> = Vec::new();
        let mut k: usize = 0;
        while k < p.len()
            invariant
                k <= p@.len(),
                s == self@,
                s.len() == self.entries@.len(),
                sorts(keys@, p@),
                kept@.len() == all.len(),
                keys@.len() == all.len(),
                forall|j: int|
                    0 <= j < kept@.len() ==> (#[trigger] kept@[j]) < s.len() && s[kept@[j] as int]
                        == all[j],
                out@.len() == k,
                forall|j: int| 0 <= j < k ==> (#[trigger] out@[j])@ == all[p@[j] as int],
            decreases p@.len() - k,
        {
            let at: usize = kept[p[k]];
            assert(s[at as int] == self.entries@[at as int]@);
            out.push(self.entries[at].copy());
            k += 1;
        }
        proof {
            let list = history_view(out@);
            assert forall|a: int, b: int| 0 <= a < b < p@.len() implies {
                let x = all[#[trigger] p@[a] as int].time;
                let y = all[#[trigger] p@[b] as int].time;
                text_less(x, y) || (!text_less(y, x) && p@[a] < p@[b])
            } by {
                assert(precedes(keys@, p@[a], p@[b]));
                assert(keys@[p@[a] as int].text@ == all[p@[a] as int].time);
                assert(keys@[p@[b] as int].text@ == all[p@[b] as int].time);
            }
            assert(timed_by(all, list, p@));
        }
        out
    }
}

// ---------------------------------------------------------------------------
// Laws
// ---------------------------------------------------------------------------

/// Exactly the entries that pass are among the passing ones.
proof fn lemma_passing_contains(
    s: Seq<HistoryEntryView>,
    op: Option<Seq<char>>,
    range: Option<(Seq<char>, Seq<char>)>,
    n: nat,
    e: HistoryEntryView,
)
    requires
        n <= s.len(),
    ensures
        passing(s, op, range, n).contains(e) <==> s.take(n as int).contains(e) && passes(
            e,
            op,
            range,
        ),
    decreases n,
{
    if n > 0 {
        let m = (n - 1) as nat;
        lemma_passing_contains(s, op, range, m, e);
        let before = passing(s, op, range, m);
        let now = passing(s, op, range, n);
        if now.contains(e) {
            let i = choose|i: int| 0 <= i < now.len() && now[i] == e;
            if i < before.len() {
                assert(before[i] == e);
                let j = choose|j: int| 0 <= j < m && s.take(m as int)[j] == e;
                assert(s.take(n as int)[j] == e);
            } else {
                assert(s.take(n as int)[m as int] == e);
            }
        }
        if s.take(n as int).contains(e) && passes(e, op, range) {
            let j = choose|j: int| 0 <= j < n && s.take(n as int)[j] == e;
            if j < m {
                assert(s.take(m as int)[j] == e);
                let i = choose|i: int| 0 <= i < before.len() && before[i] == e;
                assert(now[i] == e);
            } else {
                assert(now[before.len() as int] == e);
            }
        }
    }
}

/// A listing holds exactly the entries that pass the filters.
pub proof fn law_listing_holds_what_passes(
    s: Seq<HistoryEntryView>,
    op: Option<Seq<char>>,
    range: Option<(Seq<char>, Seq<char>)>,
    out: Seq<HistoryEntryView>,
    e: HistoryEntryView,
)
    requires
        by_time(passing(s, op, range, s.len()), out),
    ensures
        out.contains(e) <==> s.contains(e) && passes(e, op, range),
{
    let found = passing(s, op, range, s.len());
    let p = choose|p: Seq<usize>| #[trigger] timed_by(found, out, p);
    lemma_passing_contains(s, op, range, s.len(), e);
    assert(s.take(s.len() as int) =~= s);
    if out.contains(e) {
        let i = choose|i: int| 0 <= i < out.len() && out[i] == e;
        assert(found[p[i] as int] == e);
        assert(found.contains(e));
    }
    if found.contains(e) {
        let j = choose|j: int| 0 <= j < found.len() && found[j] == e;
        lemma_places_covered(p.len(), p, j);
        let i = choose|i: int| 0 <= i < p.len() && #[trigger] p[i] == j;
        assert(out[i] == e);
    }
}

/// A listing is in the order of time.
pub proof fn law_listing_is_by_time(
    s: Seq<HistoryEntryView>,
    out: Seq<HistoryEntryView>,
    i: int,
    j: int,
)
    requires
        by_time(s, out),
        0 <= i < j < out.len(),
    ensures
        !text_less(out[j].time, out[i].time),
{
    let p = choose|p: Seq<usize>| #[trigger] timed_by(s, out, p);
    lemma_text_less_total(s[p[i] as int].time, s[p[j] as int].time);
}

} // verus!
