//! The operation journal: which tasks are running, and how far they have come.

use crate::clock::{is_utc_time, now_iso};
use crate::error::AppError;
use crate::models::{journal_view, JournalEntry, JournalEntryView};
use crate::text::{eq_ignore_ascii_case, str_eq, text_eq_ignore_case};
use vstd::prelude::*;
use vstd::string::*;

verus! {

// ---------------------------------------------------------------------------
// Model
// ---------------------------------------------------------------------------

/// Line `i` is the last one of its task among the first `n`.
pub open spec fn is_latest(s: Seq<JournalEntryView>, i: int, n: nat) -> bool {
    0 <= i < n && forall|j: int| i < j < n ==> (#[trigger] s[j]).task_id != s[i].task_id
}

/// Line `i` is the last one of a task that has not ended.
pub open spec fn is_open(s: Seq<JournalEntryView>, i: int) -> bool {
    is_latest(s, i, s.len()) && s[i].final_mark is None
}

/// The last lines of the tasks that have not ended, among the first `n`.
pub open spec fn open_lines(s: Seq<JournalEntryView>, n: nat) -> Seq<JournalEntryView>
    decreases n,
{
    if n == 0 {
        Seq::empty()
    } else {
        let before = open_lines(s, (n - 1) as nat);
        if is_open(s, n - 1) {
            before.push(s[n - 1])
        } else {
            before
        }
    }
}

/// The last line of a task among the first `n`.
pub open spec fn latest_of(s: Seq<JournalEntryView>, task: Seq<char>, n: nat) -> Option<
    JournalEntryView,
>
    decreases n,
{
    if n == 0 {
        None
    } else if s[n - 1].task_id == task {
        Some(s[n - 1])
    } else {
        latest_of(s, task, (n - 1) as nat)
    }
}

/// The line occupies the source or the destination, letter case aside.
pub open spec fn occupies(e: JournalEntryView, src: Seq<char>, dst: Seq<char>) -> bool {
    text_eq_ignore_case(e.src, src) || text_eq_ignore_case(e.dst, dst)
}

/// A running task occupies the source or the destination.
pub open spec fn is_occupied(s: Seq<JournalEntryView>, src: Seq<char>, dst: Seq<char>) -> bool {
    exists|i: int| #[trigger] is_open(s, i) && occupies(s[i], src, dst)
}

/// The text of the refusal on account of a running task.
pub open spec fn conflict_text(e: JournalEntryView) -> Seq<char> {
    "路径已被运行中任务 "@ + e.task_id + " 占用: "@ + e.src
}

/// The text of the refusal on account of an unknown task.
pub open spec fn unknown_text(task: Seq<char>) -> Seq<char> {
    "任务不存在: "@ + task
}

/// The line that begins a task.
pub open spec fn first_line(
    task_id: Seq<char>,
    migration_id: Seq<char>,
    op: Seq<char>,
    src: Seq<char>,
    dst: Seq<char>,
    tmp: Seq<char>,
    old_path: Seq<char>,
    time: Seq<char>,
) -> JournalEntryView {
    JournalEntryView {
        task_id,
        op,
        migration_id,
        stage: "created"@,
        src,
        dst,
        tmp,
        old_path,
        time,
        final_mark: None,
    }
}

// ---------------------------------------------------------------------------
// Executable
// ---------------------------------------------------------------------------

/// How a task begins: with its first line at the end of the journal, unless a
/// running task occupies one of its paths; then nothing changes, and the error
/// names such a task.
pub open spec fn begins(
    before: Seq<JournalEntryView>,
    after: Seq<JournalEntryView>,
    r: Result<(), AppError>,
    task_id: Seq<char>,
    migration_id: Seq<char>,
    op: Seq<char>,
    src: Seq<char>,
    dst: Seq<char>,
    tmp: Seq<char>,
    old_path: Seq<char>,
) -> bool {
    match r {
        Ok(()) => !is_occupied(before, src, dst) && exists|time: Seq<char>|
            is_utc_time(time) && after == before.push(
                #[trigger] first_line(task_id, migration_id, op, src, dst, tmp, old_path, time),
            ),
        Err(e) => {
            &&& after == before
            &&& e is Conflict
            &&& exists|i: int| #[trigger]
                is_open(before, i) && occupies(before[i], src, dst) && e->Conflict_0@
                    == conflict_text(before[i])
        },
    }
}

/// The journal. The lines that a call adds are to be written before the call
/// counts as done.
#[derive(Debug, Clone)]
pub struct Journal {
    entries: Vec<JournalEntry>,
}

impl View for Journal {
    type V = Seq<JournalEntryView>;

    closed spec fn view(&self) -> Seq<JournalEntryView> {
        journal_view(self.entries@)
    }
}

impl Journal {
    /// The journal with the given lines.
    pub fn from_entries(entries: Vec<JournalEntry>) -> (r: Self)
        ensures
            r@ == journal_view(entries@),
    {
        Journal { entries }
    }

    /// An empty journal.
    pub fn new() -> (r: Self)
        ensures
            r@.len() == 0,
    {
        Journal { entries: Vec::new() }
    }

    /// How many lines there are.
    pub fn len(&self) -> (r: usize)
        ensures
            r == self@.len(),
    {
        self.entries.len()
    }

    /// A line.
    pub fn entry(&self, i: usize) -> (r: &JournalEntry)
        requires
            i < self@.len(),
        ensures
            r@ == self@[i as int],
    {
        &self.entries[i]
    }

    /// The place of the last line of a task.
    fn find_latest(&self, task_id: &str) -> (r: Option<usize>)
        ensures
            match r {
                Some(i) => i < self@.len() && latest_of(self@, task_id@, self@.len()) == Some(
                    self@[i as int],
                ),
                None => latest_of(self@, task_id@, self@.len()) is None,
            },
    {
        let ghost s = self@;
        let mut n: usize = self.entries.len();
        while n > 0
            invariant
                n <= s.len(),
                s == self@,
                latest_of(s, task_id@, s.len()) == latest_of(s, task_id@, n as nat),
            decreases n,
        {
            assert(s[n - 1] == self.entries@[n - 1]@);
            if str_eq(self.entries[n - 1].task_id.as_str(), task_id) {
                return Some(n - 1);
            }
            n -= 1;
        }
        None
    }

    /// Adds a line.
    fn push(&mut self, e: JournalEntry)
        ensures
            final(self)@ == old(self)@.push(e@),
    {
        self.entries.push(e);
        assert(self@ =~= old(self)@.push(e@));
    }

    /// Whether line `i` is the last one of a task that has not ended.
    fn is_open_at(&self, i: usize) -> (r: bool)
        requires
            i < self@.len(),
        ensures
            r == is_open(self@, i as int),
    {
        let ghost s = self@;
        assert(s[i as int] == self.entries@[i as int]@);
        if self.entries[i].final_mark.is_some() {
            return false;
        }
        let total: usize = self.entries.len();
        let mut j: usize = i + 1;
        while j < total
            invariant
                i < j <= s.len(),
                s == self@,
                s.len() == self.entries@.len(),
                total == s.len(),
                s[i as int] == self.entries@[i as int]@,
                forall|k: int| i < k < j ==> (#[trigger] s[k]).task_id != s[i as int].task_id,
            decreases s.len() - j,
        {
            assert(s[j as int] == self.entries@[j as int]@);
            if str_eq(self.entries[j].task_id.as_str(), self.entries[i].task_id.as_str()) {
                return false;
            }
            j += 1;
        }
        true
    }

    /// Begins a task at the given time, unless a running task occupies its
    /// source or its destination.
    pub fn begin_at(
        &mut self,
        task_id: &str,
        migration_id: &str,
        op: &str,
        src: &str,
        dst: &str,
        tmp: &str,
        old_path: &str,
        time: String,
    ) -> (r: Result<(), AppError>)
        ensures
            match r {
                Ok(()) => !is_occupied(old(self)@, src@, dst@) && final(self)@ == old(self)@.push(
                    first_line(
                        task_id@,
                        migration_id@,
                        op@,
                        src@,
                        dst@,
                        tmp@,
                        old_path@,
                        time@,
                    ),
                ),
                Err(e) => {
                    &&& final(self)@ == old(self)@
                    &&& e is Conflict
                    &&& exists|i: int| #[trigger]
                        is_open(old(self)@, i) && occupies(old(self)@[i], src@, dst@)
                            && e->Conflict_0@ == conflict_text(old(self)@[i])
                },
            },
    {
        let ghost s = self@;
        let mut i: usize = 0;
        while i < self.entries.len()
            invariant
                i <= s.len(),
                s == self@,
                s.len() == self.entries@.len(),
                s == old(self)@,
                forall|k: int|
                    0 <= k < i ==> !(#[trigger] is_open(s, k) && occupies(s[k], src@, dst@)),
            decreases s.len() - i,
        {
            assert(s[i as int] == self.entries@[i as int]@);
            let e: &JournalEntry = &self.entries[i];
            if (eq_ignore_ascii_case(e.src.as_str(), src) || eq_ignore_ascii_case(
                e.dst.as_str(),
                dst,
            )) && self.is_open_at(i) {
                let mut m = String::from_str("路径已被运行中任务 ");
                m.append(self.entries[i].task_id.as_str());
                m.append(" 占用: ");
                m.append(self.entries[i].src.as_str());
                assert(is_open(s, i as int) && occupies(s[i as int], src@, dst@));
                assert(m@ == conflict_text(s[i as int]));
                return Err(AppError::Conflict(m));
            }
            i += 1;
        }
        let e = JournalEntry {
            task_id: String::from_str(task_id),
            op: String::from_str(op),
            migration_id: String::from_str(migration_id),
            stage: String::from_str("created"),
            src: String::from_str(src),
            dst: String::from_str(dst),
            tmp: String::from_str(tmp),
            old_path: String::from_str(old_path),
            time,
            final_mark: None,
        };
        self.push(e);
        Ok(())
    }

    /// Begins a task now.
    pub fn begin(
        &mut self,
        task_id: &str,
        migration_id: &str,
        op: &str,
        src: &str,
        dst: &str,
        tmp: &str,
        old_path: &str,
    ) -> (r: Result<(), AppError>)
        ensures
            begins(
                old(self)@,
                final(self)@,
                r,
                task_id@,
                migration_id@,
                op@,
                src@,
                dst@,
                tmp@,
                old_path@,
            ),
    {
        self.begin_at(task_id, migration_id, op, src, dst, tmp, old_path, now_iso())
    }

    /// Notes that a task has reached a stage.
    pub fn mark_stage(&mut self, task_id: &str, stage: &str) -> (r: Result<(), AppError>)
        ensures
            match latest_of(old(self)@, task_id@, old(self)@.len()) {
                Some(e) => r is Ok && final(self)@ == old(self)@.push(
                    JournalEntryView { stage: stage@, ..e },
                ),
                None => final(self)@ == old(self)@ && r is Err && r->Err_0 is Store
                    && r->Err_0->Store_0@ == unknown_text(task_id@),
            },
    {
        match self.find_latest(task_id) {
            Some(i) => {
                let mut e: JournalEntry = self.entries[i].copy();
                e.stage = String::from_str(stage);
                assert(e@ == (JournalEntryView { stage: stage@, ..self@[i as int] }));
                self.push(e);
                Ok(())
            },
            None => Err(unknown_task(task_id)),
        }
    }

    /// Ends a task.
    fn finalize(&mut self, task_id: &str, mark: &str) -> (r: Result<(), AppError>)
        ensures
            match latest_of(old(self)@, task_id@, old(self)@.len()) {
                Some(e) => r is Ok && final(self)@ == old(self)@.push(
                    JournalEntryView { final_mark: Some(mark@), ..e },
                ),
                None => final(self)@ == old(self)@ && r is Err && r->Err_0 is Store
                    && r->Err_0->Store_0@ == unknown_text(task_id@),
            },
    {
        match self.find_latest(task_id) {
            Some(i) => {
                let mut e: JournalEntry = self.entries[i].copy();
                e.final_mark = Some(String::from_str(mark));
                assert(e@ == (JournalEntryView {
                    final_mark: Some(mark@),
                    ..self@[i as int]
                }));
                self.push(e);
                Ok(())
            },
            None => Err(unknown_task(task_id)),
        }
    }

    /// Ends a task that is done.
    pub fn complete(&mut self, task_id: &str) -> (r: Result<(), AppError>)
        ensures
            match latest_of(old(self)@, task_id@, old(self)@.len()) {
                Some(e) => r is Ok && final(self)@ == old(self)@.push(
                    JournalEntryView { final_mark: Some("completed"@), ..e },
                ),
                None => final(self)@ == old(self)@ && r is Err && r->Err_0 is Store
                    && r->Err_0->Store_0@ == unknown_text(task_id@),
            },
    {
        self.finalize(task_id, "completed")
    }

    /// Ends a task that was cancelled.
    pub fn cancel(&mut self, task_id: &str) -> (r: Result<(), AppError>)
        ensures
            match latest_of(old(self)@, task_id@, old(self)@.len()) {
                Some(e) => r is Ok && final(self)@ == old(self)@.push(
                    JournalEntryView { final_mark: Some("canceled"@), ..e },
                ),
                None => final(self)@ == old(self)@ && r is Err && r->Err_0 is Store
                    && r->Err_0->Store_0@ == unknown_text(task_id@),
            },
    {
        self.finalize(task_id, "canceled")
    }

    /// Ends a task that failed, after a line with the reason.
    pub fn fail(&mut self, task_id: &str, reason: &str) -> (r: Result<(), AppError>)
        ensures
            match latest_of(old(self)@, task_id@, old(self)@.len()) {
                Some(e) => {
                    let failed = JournalEntryView { stage: "failed: "@ + reason@, ..e };
                    r is Ok && final(self)@ == old(self)@.push(failed).push(
                        JournalEntryView { final_mark: Some("failed"@), ..failed },
                    )
                },
                None => final(self)@ == old(self)@ && r is Err && r->Err_0 is Store
                    && r->Err_0->Store_0@ == unknown_text(task_id@),
            },
    {
        match self.find_latest(task_id) {
            Some(i) => {
                let mut e: JournalEntry = self.entries[i].copy();
                let mut stage = String::from_str("failed: ");
                stage.append(reason);
                e.stage = stage;
                let ghost failed = JournalEntryView {
                    stage: "failed: "@ + reason@,
                    ..self@[i as int]
                };
                assert(e@ == failed);
                proof {
                    lemma_latest_task(self@, task_id@, self@.len());
                }
                self.push(e);
                assert(latest_of(self@, task_id@, self@.len()) == Some(failed));
                self.finalize(task_id, "failed")
            },
            None => Err(unknown_task(task_id)),
        }
    }

    /// The last lines of the tasks that have not ended.
    pub fn recover_pending(&self) -> (r: Vec<JournalEntry>)
        ensures
            journal_view(r@) == open_lines(self@, self@.len()),
    {
        let ghost s = self@;
        let mut out: Vec<JournalEntry> = Vec::new();
        let mut i: usize = 0;
        assert(journal_view(out@) =~= Seq::<JournalEntryView>::empty());
        while i < self.entries.len()
            invariant
                i <= s.len(),
                s == self@,
                s.len() == self.entries@.len(),
                journal_view(out@) == open_lines(s, i as nat),
            decreases s.len() - i,
        {
            assert(s[i as int] == self.entries@[i as int]@);
            let ghost before = journal_view(out@);
            if self.is_open_at(i) {
                out.push(self.entries[i].copy());
                assert(journal_view(out@) =~= before.push(s[i as int]));
            }
            i += 1;
        }
        out
    }
}

/// The error for an unknown task.
fn unknown_task(task_id: &str) -> (r: AppError)
    ensures
        r is Store,
        r->Store_0@ == unknown_text(task_id@),
{
    let mut m = String::from_str("任务不存在: ");
    m.append(task_id);
    AppError::Store(m)
}

/// The last line of a task belongs to the task.
pub proof fn lemma_latest_task(s: Seq<JournalEntryView>, task: Seq<char>, n: nat)
    ensures
        latest_of(s, task, n) is Some ==> latest_of(s, task, n)->0.task_id == task,
    decreases n,
{
    if n > 0 {
        lemma_latest_task(s, task, (n - 1) as nat);
    }
}

// ---------------------------------------------------------------------------
// Laws
// ---------------------------------------------------------------------------

/// A line that ends a task takes the task out of the list of running tasks.
pub proof fn law_ended_task_is_not_pending(
    s: Seq<JournalEntryView>,
    task: Seq<char>,
    e: JournalEntryView,
)
    requires
        e.task_id == task,
        e.final_mark is Some,
    ensures
        forall|i: int|
            0 <= i < open_lines(s.push(e), s.push(e).len()).len() ==> (#[trigger] open_lines(
                s.push(e),
                s.push(e).len(),
            )[i]).task_id != task,
{
    let t = s.push(e);
    assert forall|i: int| #[trigger] is_open(t, i) implies t[i].task_id != task by {
        if i < s.len() {
            assert(t[s.len() as int].task_id == task);
        }
    }
    lemma_open_lines_tasks(t, task, t.len());
}

proof fn lemma_open_lines_tasks(t: Seq<JournalEntryView>, task: Seq<char>, n: nat)
    requires
        n <= t.len(),
        forall|i: int| #[trigger] is_open(t, i) ==> t[i].task_id != task,
    ensures
        forall|i: int|
            0 <= i < open_lines(t, n).len() ==> (#[trigger] open_lines(t, n)[i]).task_id != task,
    decreases n,
{
    if n > 0 {
        lemma_open_lines_tasks(t, task, (n - 1) as nat);
        let before = open_lines(t, (n - 1) as nat);
        let now = open_lines(t, n);
        assert forall|i: int| 0 <= i < now.len() implies (#[trigger] now[i]).task_id != task by {
            if i < before.len() {
                assert(now[i] == before[i]);
            }
        }
    }
}

/// No two lines in the list of running tasks belong to the same task.
pub proof fn law_one_pending_line_per_task(s: Seq<JournalEntryView>)
    ensures
        forall|i: int, j: int|
            0 <= i < j < open_lines(s, s.len()).len() ==> (#[trigger] open_lines(
                s,
                s.len(),
            )[i]).task_id != (#[trigger] open_lines(s, s.len())[j]).task_id,
{
    lemma_open_lines_distinct(s, s.len());
}

/// `e` is one of the first `n` lines, and the last one of a task that has not ended.
spec fn is_open_among(s: Seq<JournalEntryView>, n: nat, e: JournalEntryView) -> bool {
    exists|k: int| 0 <= k < n && #[trigger] is_open(s, k) && s[k] == e
}

proof fn lemma_open_lines_distinct(s: Seq<JournalEntryView>, n: nat)
    requires
        n <= s.len(),
    ensures
        forall|i: int, j: int|
            0 <= i < j < open_lines(s, n).len() ==> (#[trigger] open_lines(s, n)[i]).task_id != (
            #[trigger] open_lines(s, n)[j]).task_id,
        forall|i: int|
            0 <= i < open_lines(s, n).len() ==> is_open_among(s, n, #[trigger] open_lines(s, n)[i]),
    decreases n,
{
    if n > 0 {
        lemma_open_lines_distinct(s, (n - 1) as nat);
        let before = open_lines(s, (n - 1) as nat);
        let now = open_lines(s, n);
        assert forall|i: int| 0 <= i < now.len() implies is_open_among(s, n, #[trigger] now[i]) by {
            if i < before.len() {
                assert(now[i] == before[i]);
                assert(is_open_among(s, (n - 1) as nat, before[i]));
                let k = choose|k: int|
                    0 <= k < n - 1 && #[trigger] is_open(s, k) && s[k] == before[i];
                assert(is_open(s, k));
            } else {
                assert(is_open(s, n - 1));
            }
        }
        assert forall|i: int, j: int| 0 <= i < j < now.len() implies (#[trigger] now[i]).task_id
            != (#[trigger] now[j]).task_id by {
            assert(now[i] == before[i]);
            if j < before.len() {
                assert(now[j] == before[j]);
            } else {
                assert(is_open_among(s, (n - 1) as nat, before[i]));
                let k = choose|k: int|
                    0 <= k < n - 1 && #[trigger] is_open(s, k) && s[k] == before[i];
                assert(s[n - 1].task_id != s[k].task_id);
            }
        }
    }
}

/// Once the task that occupied a path has ended, and no other task occupies
/// it, the path can be used again.
pub proof fn law_ended_task_frees_its_paths(
    s: Seq<JournalEntryView>,
    e: JournalEntryView,
    src: Seq<char>,
    dst: Seq<char>,
)
    requires
        e.final_mark is Some,
        forall|i: int| #[trigger]
            is_open(s, i) && occupies(s[i], src, dst) ==> s[i].task_id == e.task_id,
    ensures
        !is_occupied(s.push(e), src, dst),
{
    let t = s.push(e);
    assert forall|i: int| !(#[trigger] is_open(t, i) && occupies(t[i], src, dst)) by {
        if is_open(t, i) && occupies(t[i], src, dst) {
            assert(i < s.len());
            assert(t[i] == s[i]);
            assert(t[s.len() as int].task_id != t[i].task_id);
            assert forall|j: int| i < j < s.len() implies (#[trigger] s[j]).task_id
                != s[i].task_id by {
                assert(t[j] == s[j]);
            }
            assert(is_open(s, i));
        }
    }
}

/// While a task is running, no second task can begin on its source.
pub proof fn law_running_task_holds_its_source(
    s: Seq<JournalEntryView>,
    i: int,
    dst: Seq<char>,
)
    requires
        is_open(s, i),
    ensures
        is_occupied(s, s[i].src, dst),
{
    assert(occupies(s[i], s[i].src, dst));
}

} // verus!
