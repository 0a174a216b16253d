//! What is remembered: the table of migrations, the journal, the history, and the
//! manifests of copies.

use crate::error::AppError;
use crate::file_ops::{
    differ_at, entry_for_path, same_tree, share, CopyPhase, CopyProgress, ManifestEntryView,
};
use crate::history::{by_time, law_listing_holds_what_passes, law_listing_is_by_time, passing};
use crate::journal::{begins, is_open, latest_of, occupies, open_lines};
use crate::migrator::plan::scaled_percent;
use crate::models::{HistoryEntryView, JournalEntryView, MigrationView};
use crate::store::{first_with_id, upserted, without_id};
use crate::text::{text_eq_ignore_case, text_less};
use vstd::prelude::*;
use vstd::string::*;

verus! {

// ---------------------------------------------------------------------------
// The table of migrations
// ---------------------------------------------------------------------------

proof fn lemma_first(s: Seq<MigrationView>, id: Seq<char>, n: nat)
    requires
        n <= s.len(),
    ensures
        match first_with_id(s, id, n) {
            Some(i) => 0 <= i < n && s[i].id == id && forall|j: int|
                0 <= j < i ==> (#[trigger] s[j]).id != id,
            None => forall|j: int| 0 <= j < n ==> (#[trigger] s[j]).id != id,
        },
    decreases n,
{
    if n > 0 {
        lemma_first(s, id, (n - 1) as nat);
    }
}

/// A record is found by its id exactly where the table holds one with that id, and
/// what is found is the first such record.
pub proof fn law_records_are_found_by_id(s: Seq<MigrationView>, id: Seq<char>, j: int)
    requires
        0 <= j < s.len(),
    ensures
        s[j].id == id ==> first_with_id(s, id, s.len()) is Some,
        first_with_id(s, id, s.len()) matches Some(i) ==> 0 <= i < s.len() && s[i].id == id && (
        s[j].id == id ==> i <= j),
{
    lemma_first(s, id, s.len());
}

/// Recording a migration puts its record into the table and leaves all other records
/// as they are and where they are; the table grows by one exactly where the id is new.
pub proof fn law_recording_changes_one_record(s: Seq<MigrationView>, m: MigrationView, j: int)
    ensures
        upserted(s, m).contains(m),
        0 <= j < s.len() && s[j].id != m.id ==> upserted(s, m).len() > j && upserted(s, m)[j]
            == s[j],
        (exists|i: int| 0 <= i < s.len() && (#[trigger] s[i]).id == m.id) ==> upserted(s, m).len()
            == s.len(),
        !(exists|i: int| 0 <= i < s.len() && (#[trigger] s[i]).id == m.id) ==> upserted(s, m).len()
            == s.len() + 1,
{
    lemma_first(s, m.id, s.len());
    match first_with_id(s, m.id, s.len()) {
        Some(i) => {
            assert(upserted(s, m)[i] == m);
            assert(s[i].id == m.id);
        },
        None => {
            assert(upserted(s, m)[s.len() as int] == m);
        },
    }
}

/// Removing a migration removes the records with its id and no others.
pub proof fn law_removing_takes_one_id(s: Seq<MigrationView>, id: Seq<char>, m: MigrationView)
    ensures
        without_id(s, id).contains(m) <==> s.contains(m) && m.id != id,
{
    let keep = |m: MigrationView| m.id != id;
    let t = without_id(s, id);
    broadcast use vstd::seq_lib::group_filter_ensures;

    if s.contains(m) && m.id != id {
        let i = choose|i: int| 0 <= i < s.len() && s[i] == m;
        assert(keep(s[i]));
        assert(t.contains(s[i]));
    }
    if t.contains(m) {
        let i = choose|i: int| 0 <= i < t.len() && t[i] == m;
        assert(keep(t[i]));
        s.lemma_filter_contains_rev(keep, m);
    }
}

// ---------------------------------------------------------------------------
// The journal
// ---------------------------------------------------------------------------

/// Line `i` is the last of its task, and the task has not ended.
pub open spec fn is_unfinished(s: Seq<JournalEntryView>, i: int) -> bool {
    &&& 0 <= i < s.len()
    &&& s[i].final_mark is None
    &&& forall|j: int| i < j < s.len() ==> (#[trigger] s[j]).task_id != s[i].task_id
}

proof fn lemma_open(s: Seq<JournalEntryView>, n: nat, e: JournalEntryView)
    requires
        n <= s.len(),
    ensures
        open_lines(s, n).contains(e) <==> exists|i: int|
            0 <= i < n && #[trigger] is_unfinished(s, i) && s[i] == e,
    decreases n,
{
    if n > 0 {
        let m = (n - 1) as nat;
        lemma_open(s, m, e);
        let before = open_lines(s, m);
        let now = open_lines(s, n);
        assert(is_open(s, n - 1) <==> is_unfinished(s, n - 1));
        if now.contains(e) {
            let k = choose|k: int| 0 <= k < now.len() && now[k] == e;
            if k < before.len() {
                assert(before[k] == e);
                assert(before.contains(e));
                let i = choose|i: int| 0 <= i < m && #[trigger] is_unfinished(s, i) && s[i] == e;
                assert(is_unfinished(s, i));
            } else {
                assert(is_unfinished(s, n - 1));
            }
        }
        if exists|i: int| 0 <= i < n && #[trigger] is_unfinished(s, i) && s[i] == e {
            let i = choose|i: int| 0 <= i < n && #[trigger] is_unfinished(s, i) && s[i] == e;
            if i < m {
                assert(before.contains(e));
                let k = choose|k: int| 0 <= k < before.len() && before[k] == e;
                assert(now[k] == e);
            } else {
                assert(now[before.len() as int] == e);
            }
        }
    }
}

/// What waits for the recovery is the last line of every task that has not ended.
pub proof fn law_unfinished_tasks_are_recovered(s: Seq<JournalEntryView>, e: JournalEntryView)
    ensures
        open_lines(s, s.len()).contains(e) <==> exists|i: int|
            #[trigger] is_unfinished(s, i) && s[i] == e,
{
    lemma_open(s, s.len(), e);
    if exists|i: int| #[trigger] is_unfinished(s, i) && s[i] == e {
        let i = choose|i: int| #[trigger] is_unfinished(s, i) && s[i] == e;
        assert(0 <= i < s.len() && is_unfinished(s, i) && s[i] == e);
    }
}

/// A task may begin exactly where no unfinished task has its source or its
/// destination, letter case aside; it then stands at the end of the journal as
/// created and waits for the recovery until it ends.
pub proof fn law_task_begins_where_its_paths_are_free(
    before: Seq<JournalEntryView>,
    after: Seq<JournalEntryView>,
    r: Result<(), AppError>,
    task_id: Seq<char>,
    migration_id: Seq<char>,
    op: Seq<char>,
    src: Seq<char>,
    dst: Seq<char>,
    tmp: Seq<char>,
    old_path: Seq<char>,
)
    requires
        begins(before, after, r, task_id, migration_id, op, src, dst, tmp, old_path),
    ensures
        r is Ok <==> forall|i: int| #[trigger]
            is_unfinished(before, i) ==> !text_eq_ignore_case(before[i].src, src)
                && !text_eq_ignore_case(before[i].dst, dst),
        r is Err ==> after == before && r->Err_0 is Conflict,
        r is Ok ==> {
            &&& after.len() == before.len() + 1
            &&& after.drop_last() == before
            &&& after.last().task_id == task_id
            &&& after.last().migration_id == migration_id
            &&& after.last().op == op
            &&& after.last().stage == "created"@
            &&& after.last().src == src
            &&& after.last().dst == dst
            &&& after.last().tmp == tmp
            &&& after.last().old_path == old_path
            &&& after.last().final_mark is None
            &&& is_unfinished(after, before.len() as int)
        },
{
    assert forall|i: int| is_open(before, i) <==> is_unfinished(before, i) by {}
    if r is Ok {
        assert forall|i: int| #[trigger] is_unfinished(before, i) implies !text_eq_ignore_case(
            before[i].src,
            src,
        ) && !text_eq_ignore_case(before[i].dst, dst) by {
            assert(is_open(before, i));
            assert(!occupies(before[i], src, dst));
        }
        assert(after.drop_last() =~= before);
    } else {
        let i = choose|i: int| #[trigger]
            is_open(before, i) && occupies(before[i], src, dst);
        assert(is_unfinished(before, i));
    }
}

/// The last line of a task is found, if it has any.
pub proof fn law_last_line_is_found(s: Seq<JournalEntryView>, task: Seq<char>, i: int)
    requires
        0 <= i < s.len(),
        s[i].task_id == task,
        forall|j: int| i < j < s.len() ==> (#[trigger] s[j]).task_id != task,
    ensures
        latest_of(s, task, s.len()) == Some(s[i]),
{
    lemma_latest(s, task, i, s.len());
}

proof fn lemma_latest(s: Seq<JournalEntryView>, task: Seq<char>, i: int, n: nat)
    requires
        0 <= i < n <= s.len(),
        s[i].task_id == task,
        forall|j: int| i < j < s.len() ==> (#[trigger] s[j]).task_id != task,
    ensures
        latest_of(s, task, n) == Some(s[i]),
    decreases n,
{
    if i < n - 1 {
        assert(s[n - 1].task_id != task);
        lemma_latest(s, task, i, (n - 1) as nat);
    }
}

// ---------------------------------------------------------------------------
// The history
// ---------------------------------------------------------------------------

/// The history shows the entries of the operation that is asked for, from the one
/// time on and before the other, and no others, by their time.
pub proof fn law_history_shows_what_was_asked_for(
    s: Seq<HistoryEntryView>,
    op: Option<Seq<char>>,
    range: Option<(Seq<char>, Seq<char>)>,
    out: Seq<HistoryEntryView>,
    e: HistoryEntryView,
    i: int,
    j: int,
)
    requires
        by_time(passing(s, op, range, s.len()), out),
    ensures
        out.contains(e) <==> {
            &&& s.contains(e)
            &&& op is Some ==> e.op == op->0
            &&& range is Some ==> !text_less(e.time, (range->0).0) && text_less(e.time, (range->0).1)
        },
        0 <= i < j < out.len() ==> !text_less(out[j].time, out[i].time),
{
    law_listing_holds_what_passes(s, op, range, out, e);
    if 0 <= i < j < out.len() {
        law_listing_is_by_time(passing(s, op, range, s.len()), out, i, j);
    }
}

// ---------------------------------------------------------------------------
// Manifests
// ---------------------------------------------------------------------------

/// No path occurs twice.
pub open spec fn paths_apart(s: Seq<ManifestEntryView>) -> bool {
    forall|i: int, j: int|
        0 <= i < j < s.len() ==> (#[trigger] s[i]).rel_path != (#[trigger] s[j]).rel_path
}

/// The manifest has an entry of the kind and the size at the path.
pub open spec fn has_entry(s: Seq<ManifestEntryView>, path: Seq<char>, is_dir: bool, size: u64) -> bool {
    exists|i: int|
        0 <= i < s.len() && (#[trigger] s[i]).rel_path == path && s[i].is_dir == is_dir && s[i].size
            == size
}

proof fn lemma_entry(s: Seq<ManifestEntryView>, k: Seq<char>, n: nat)
    requires
        n <= s.len(),
        paths_apart(s),
    ensures
        match entry_for_path(s, k, n) {
            Some(e) => e.rel_path == k && exists|i: int| 0 <= i < n && #[trigger] s[i] == e,
            None => forall|i: int| 0 <= i < n ==> (#[trigger] s[i]).rel_path != k,
        },
    decreases n,
{
    if n > 0 {
        lemma_entry(s, k, (n - 1) as nat);
        if s[n - 1].rel_path == k {
            assert(s[n - 1] == entry_for_path(s, k, n)->0);
        }
    }
}

/// Two manifests agree exactly where they hold the same paths, each of the same kind
/// and the same size.
pub proof fn law_manifests_agree_on_paths_kinds_and_sizes(
    a: Seq<ManifestEntryView>,
    b: Seq<ManifestEntryView>,
)
    requires
        paths_apart(a),
        paths_apart(b),
    ensures
        same_tree(a, b) <==> forall|path: Seq<char>, is_dir: bool, size: u64|
            has_entry(a, path, is_dir, size) <==> has_entry(b, path, is_dir, size),
{
    if same_tree(a, b) {
        assert forall|path: Seq<char>, is_dir: bool, size: u64|
            has_entry(a, path, is_dir, size) <==> has_entry(b, path, is_dir, size) by {
            assert(!differ_at(a, b, path));
            assert(!differ_at(b, a, path));
            lemma_has(a, b, path, is_dir, size);
            lemma_has(b, a, path, is_dir, size);
        }
    }
    if forall|path: Seq<char>, is_dir: bool, size: u64|
        has_entry(a, path, is_dir, size) <==> has_entry(b, path, is_dir, size) {
        assert forall|k: Seq<char>| !(#[trigger] differ_at(a, b, k)) by {
            lemma_entry(a, k, a.len());
            lemma_entry(b, k, b.len());
            match entry_for_path(a, k, a.len()) {
                Some(e) => {
                    assert(has_entry(a, k, e.is_dir, e.size));
                    assert(has_entry(b, k, e.is_dir, e.size));
                    lemma_only(b, k, e.is_dir, e.size);
                },
                None => {
                    match entry_for_path(b, k, b.len()) {
                        Some(e) => {
                            assert(has_entry(b, k, e.is_dir, e.size));
                            assert(has_entry(a, k, e.is_dir, e.size));
                        },
                        None => {},
                    }
                },
            }
        }
    }
}

proof fn lemma_only(s: Seq<ManifestEntryView>, k: Seq<char>, is_dir: bool, size: u64)
    requires
        paths_apart(s),
        has_entry(s, k, is_dir, size),
    ensures
        entry_for_path(s, k, s.len()) matches Some(e) && e.is_dir == is_dir && e.size == size,
{
    lemma_entry(s, k, s.len());
    let i = choose|i: int|
        0 <= i < s.len() && (#[trigger] s[i]).rel_path == k && s[i].is_dir == is_dir && s[i].size
            == size;
    let e = entry_for_path(s, k, s.len())->0;
    let j = choose|j: int| 0 <= j < s.len() && #[trigger] s[j] == e;
    if i < j {
        assert(s[i].rel_path != s[j].rel_path);
    } else if j < i {
        assert(s[j].rel_path != s[i].rel_path);
    }
}

proof fn lemma_has(
    a: Seq<ManifestEntryView>,
    b: Seq<ManifestEntryView>,
    path: Seq<char>,
    is_dir: bool,
    size: u64,
)
    requires
        paths_apart(a),
        paths_apart(b),
        !differ_at(a, b, path),
    ensures
        has_entry(a, path, is_dir, size) ==> has_entry(b, path, is_dir, size),
{
    if has_entry(a, path, is_dir, size) {
        lemma_only(a, path, is_dir, size);
        lemma_entry(b, path, b.len());
        let e = entry_for_path(b, path, b.len())->0;
        let j = choose|j: int| 0 <= j < b.len() && #[trigger] b[j] == e;
        assert(b[j].rel_path == path && b[j].is_dir == is_dir && b[j].size == size);
    }
}

// ---------------------------------------------------------------------------
// Progress
// ---------------------------------------------------------------------------

/// The percentage is the whole number of hundredths that are done: nothing at the
/// beginning, and a hundred exactly when all is done.
pub proof fn law_percentage_is_the_share(done: u64, all: u64)
    requires
        0 < all,
        done <= all,
        done * 100 <= u64::MAX,
    ensures
        share(done, all) * all <= done * 100 < (share(done, all) + 1) * all,
        share(0, all) == 0,
        share(all, all) == 100 || all * 100 > u64::MAX,
{
    let d = done as int;
    let t = all as int;
    assert(d * 100 / t <= 100) by (nonlinear_arith)
        requires
            0 <= d <= t,
            t > 0,
    ;
    assert((d * 100 / t) * t <= d * 100 < (d * 100 / t + 1) * t) by (nonlinear_arith)
        requires
            0 <= d,
            t > 0,
    ;
    assert(t * 100 / t == 100) by (nonlinear_arith)
        requires
            t > 0,
    ;
    assert(0int / t == 0) by (nonlinear_arith)
        requires
            t > 0,
    ;
}

/// Progress goes by bytes where there are any, else by files; what there is nothing of
/// is done once the copying began.
pub proof fn law_progress_goes_by_bytes(p: CopyProgress)
    ensures
        p.total_bytes is Some && p.total_bytes->0 > 0 ==> p.spec_percent() == share(
            p.completed_bytes,
            p.total_bytes->0,
        ),
        !(p.total_bytes is Some && p.total_bytes->0 > 0) && p.total_files is Some
            && p.total_files->0 > 0 ==> p.spec_percent() == share(
            p.completed_files,
            p.total_files->0,
        ),
        !(p.total_bytes is Some && p.total_bytes->0 > 0) && !(p.total_files is Some
            && p.total_files->0 > 0) ==> p.spec_percent() == if p.phase == CopyPhase::Copying {
            100int
        } else {
            0
        },
{
}

/// The percentage of a copy that takes a part of the whole lies in that part: at its
/// beginning while the copy is prepared, and at its end when it is done.
pub proof fn law_part_lies_in_its_range(range: (u8, u8), p: CopyProgress)
    requires
        range.0 <= range.1 <= 100,
    ensures
        range.0 <= scaled_percent(range, p) <= range.1,
        p.phase == CopyPhase::Preparing ==> scaled_percent(range, p) == range.0,
        p.phase == CopyPhase::Copying && p.spec_percent() == 100 ==> scaled_percent(range, p)
            == range.1,
{
    let span = range.1 - range.0;
    let q = p.spec_percent();
    lemma_percent(p);
    assert(0 <= q * span / 100 <= span) by (nonlinear_arith)
        requires
            0 <= q <= 100,
            span >= 0,
    ;
    assert(100 * span / 100 == span);
}

proof fn lemma_percent(p: CopyProgress)
    ensures
        0 <= p.spec_percent() <= 100,
{
    match (p.total_bytes, p.total_files) {
        (Some(t), _) if t > 0 => {
            lemma_share(p.completed_bytes, t);
        },
        (_, Some(t)) if t > 0 => {
            lemma_share(p.completed_files, t);
        },
        _ => {},
    }
}

proof fn lemma_share(done: u64, all: u64)
    requires
        all > 0,
    ensures
        0 <= share(done, all) <= 100,
{
    let hundred = if done * 100 > u64::MAX {
        u64::MAX as int
    } else {
        done * 100
    };
    assert(hundred / all as int >= 0) by (nonlinear_arith)
        requires
            hundred >= 0,
            all > 0,
    ;
}

} // verus!
