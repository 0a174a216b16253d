//! The state of the application, and what the user is told about unfinished
//! tasks.

use crate::history::History;
use crate::journal::Journal;
use crate::migrator::plan::Mark;
use crate::models::{journal_view, opt_view, JournalEntry, Migration, MigrationStatus};
use crate::scanner::tree::TreeStore;
use crate::store::Store;
use crate::text::{has_prefix, starts_with, str_eq};
use vstd::prelude::*;
use vstd::string::*;

verus! {

/// A link in the list of links.
#[derive(Debug, Clone)]
pub struct LinkItem {
    pub id: String,
    pub source: String,
    pub target: String,
    pub preset: Option<String>,
    pub created_at: String,
    pub status: String,
    /// The link resolves.
    pub valid: bool,
    /// The target does not exist.
    pub broken: bool,
}

/// The state of the application.
pub struct AppState {
    pub store: Store,
    pub journal: Journal,
    pub history: History,
    /// The running migration or restoration, and whether it is to stop.
    pub task: Option<bool>,
    /// The running scan, and whether it is to stop.
    pub scan_task: Option<bool>,
    /// The tree of the last scan.
    pub current_scan: Option<TreeStore>,
    /// Whether the application was started in order to scan.
    pub startup_scan_intent: Option<bool>,
}

impl AppState {
    /// The tree is consistent.
    pub open spec fn wf(&self) -> bool {
        self.current_scan matches Some(s) ==> s.wf()
    }

    /// The state before anything happened.
    pub fn new(store: Store, journal: Journal, history: History) -> (r: Self)
        ensures
            r.wf(),
            r.store == store,
            r.journal == journal,
            r.history == history,
            r.task is None,
            r.scan_task is None,
            r.current_scan is None,
            r.startup_scan_intent == Some(false),
    {
        AppState {
            store,
            journal,
            history,
            task: None,
            scan_task: None,
            current_scan: None,
            startup_scan_intent: Some(false),
        }
    }
}

/// What can be done about a task that stopped at a stage.
pub open spec fn advice_for(stage: Seq<char>) -> Seq<char> {
    if stage == "created"@ || stage == "copied"@ || stage == "manifest_ok"@ {
        "清 tmp 可重试"@
    } else if stage == "source_renamed"@ || stage == "incremental_synced"@ {
        "oldPath 改回原名可重试"@
    } else if stage == "junction_created"@ || stage == "pending_record"@ || stage
        == "record_written"@ {
        "已建链，补写或确认"@
    } else if starts_with(stage, "restore_"@) {
        "还原中断，按阶段恢复"@
    } else {
        "待人工确认"@
    }
}

/// What can be done about a task that stopped at a stage.
pub fn recovery_advice(stage: &str) -> (r: &'static str)
    ensures
        r@ == advice_for(stage@),
{
    if str_eq(stage, "created") || str_eq(stage, "copied") || str_eq(stage, "manifest_ok") {
        "清 tmp 可重试"
    } else if str_eq(stage, "source_renamed") || str_eq(stage, "incremental_synced") {
        "oldPath 改回原名可重试"
    } else if str_eq(stage, "junction_created") || str_eq(stage, "pending_record") || str_eq(
        stage,
        "record_written",
    ) {
        "已建链，补写或确认"
    } else if has_prefix(stage, "restore_") {
        "还原中断，按阶段恢复"
    } else {
        "待人工确认"
    }
}

/// The migration, the stage and the advice for each unfinished task.
pub fn recover_pending_decisions(entries: &[JournalEntry]) -> (r: Vec<(String, String, String)>)
    ensures
        r@.len() == entries@.len(),
        forall|i: int|
            0 <= i < r@.len() ==> (#[trigger] r@[i]).0@ == entries@[i].migration_id@ && r@[i].1@
                == entries@[i].stage@ && r@[i].2@ == advice_for(entries@[i].stage@),
{
    let mut out: Vec<(String, String, String)> = Vec::new();
    let mut i: usize = 0;
    while i < entries.len()
        invariant
            i <= entries@.len(),
            out@.len() == i,
            forall|j: int|
                0 <= j < i ==> (#[trigger] out@[j]).0@ == entries@[j].migration_id@ && out@[j].1@
                    == entries@[j].stage@ && out@[j].2@ == advice_for(entries@[j].stage@),
        decreases entries@.len() - i,
    {
        let e: &JournalEntry = &entries[i];
        let advice: &str = recovery_advice(e.stage.as_str());
        out.push((e.migration_id.clone(), e.stage.clone(), String::from_str(advice)));
        i += 1;
    }
    out
}

impl MigrationStatus {
    /// The status as it is written.
    pub open spec fn text(&self) -> Seq<char> {
        match self {
            MigrationStatus::Active => "active"@,
            MigrationStatus::OldPendingDelete => "old_pending_delete"@,
            MigrationStatus::TargetPendingDelete => "target_pending_delete"@,
            MigrationStatus::PendingManualConfirm => "pending_manual_confirm"@,
        }
    }

    /// The status as it is written.
    pub fn as_str(&self) -> (r: &'static str)
        ensures
            r@ == self.text(),
    {
        match self {
            MigrationStatus::Active => "active",
            MigrationStatus::OldPendingDelete => "old_pending_delete",
            MigrationStatus::TargetPendingDelete => "target_pending_delete",
            MigrationStatus::PendingManualConfirm => "pending_manual_confirm",
        }
    }
}

/// The item for a migration, given whether its link resolves and its target exists.
pub fn link_item(m: &Migration, valid: bool, target_exists: bool) -> (r: LinkItem)
    ensures
        r.id@ == m.id@,
        r.source@ == m.source@,
        r.target@ == m.target@,
        opt_view(r.preset) == opt_view(m.preset),
        r.created_at@ == m.created_at@,
        r.status@ == m.status.text(),
        r.valid == valid,
        r.broken == !target_exists,
{
    LinkItem {
        id: m.id.clone(),
        source: m.source.clone(),
        target: m.target.clone(),
        preset: crate::models::copy_opt(&m.preset),
        created_at: m.created_at.clone(),
        status: String::from_str(m.status.as_str()),
        valid,
        broken: !target_exists,
    }
}

/// The number of unfinished tasks, if there are any.
pub fn report_pending_recovery(journal: &Journal) -> (r: Option<usize>)
    ensures
        ({
            let n = crate::journal::open_lines(journal@, journal@.len()).len();
            match r {
                Some(count) => count == n && n > 0,
                None => n == 0,
            }
        }),
{
    let pending: Vec<JournalEntry> = journal.recover_pending();
    assert(journal_view(pending@).len() == pending@.len());
    if pending.len() > 0 {
        Some(pending.len())
    } else {
        None
    }
}

/// Whether the application was started in order to scan with more rights.
pub fn is_elevated_scan_start(args: &[String]) -> (r: bool)
    ensures
        r == exists|i: int| 0 <= i < args@.len() && (#[trigger] args@[i])@ == "--elevated-scan"@,
{
    let mut i: usize = 0;
    while i < args.len()
        invariant
            i <= args@.len(),
            forall|j: int| 0 <= j < i ==> (#[trigger] args@[j])@ != "--elevated-scan"@,
        decreases args@.len() - i,
    {
        if str_eq(args[i].as_str(), "--elevated-scan") {
            return true;
        }
        i += 1;
    }
    false
}

/// The advice follows what has been done: before the source is touched the copy
/// can go; once the source is renamed it gets its name back; once the link is
/// there it stays; a restoration goes on. In between a human has to look.
pub proof fn law_advice_follows_the_stage(m: Mark)
    ensures
        advice_for("created"@) == "清 tmp 可重试"@,
        advice_for(m.text()) == match m {
            Mark::Copied | Mark::ManifestOk => "清 tmp 可重试"@,
            Mark::SourceRenamed | Mark::IncrementalSynced => "oldPath 改回原名可重试"@,
            Mark::JunctionCreated | Mark::PendingRecord | Mark::RecordWritten => "已建链，补写或确认"@,
            Mark::RestoreCopied
            | Mark::RestoreManifestOk
            | Mark::RestoreSwitched
            | Mark::RestoreTargetRecycled => "还原中断，按阶段恢复"@,
            Mark::RenamingSource | Mark::OldRecycled | Mark::JunctionRemoved => "待人工确认"@,
        },
{
    reveal_strlit("created");
    reveal_strlit("copied");
    reveal_strlit("manifest_ok");
    reveal_strlit("source_renamed");
    reveal_strlit("incremental_synced");
    reveal_strlit("junction_created");
    reveal_strlit("pending_record");
    reveal_strlit("record_written");
    reveal_strlit("restore_");
    reveal_strlit("renaming_source");
    reveal_strlit("old_recycled");
    reveal_strlit("restore_copied");
    reveal_strlit("restore_manifest_ok");
    reveal_strlit("junction_removed");
    reveal_strlit("restore_switched");
    reveal_strlit("restore_target_recycled");
    let stage = m.text();
    assert("source_renamed"@[0] == 's' && "pending_record"@[0] == 'p');
    assert("record_written"@[0] == 'r' && "record_written"@[2] == 'c');
    assert("junction_created"@[0] == 'j' && "junction_created"@[9] == 'c');
    assert("junction_removed"@[9] == 'r' && "restore_"@[2] == 's' && "restore_"@[0] == 'r');
    if m == Mark::RestoreCopied || m == Mark::RestoreManifestOk || m == Mark::RestoreSwitched || m
        == Mark::RestoreTargetRecycled {
        assert(stage.take(8) =~= "restore_"@);
        assert(stage[0] == 'r' && stage[2] == 's');
    } else if stage.len() >= 8 {
        assert(stage.take(8)[0] == stage[0] && stage.take(8)[2] == stage[2]);
    }
}

} // verus!
