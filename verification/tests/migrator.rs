use dayu_disk_manager::error::AppError;
use dayu_disk_manager::extension::with_extension;
use dayu_disk_manager::file_ops::{
    CopyOutcome, CopyPhase, CopyProgress, Manifest, ManifestEntry,
};
use dayu_disk_manager::history::History;
use dayu_disk_manager::journal::Journal;
use dayu_disk_manager::migrator::plan::Mark;
use dayu_disk_manager::migrator::{
    stage, Action, BreakLinkRun, Event, MigratePlan, MigrateRun, Place, RestoreRun, SrcResolver,
};
use dayu_disk_manager::models::{Migration, MigrationStatus, OperationOutcome, ProgressEvent};
use dayu_disk_manager::store::Store;
use std::collections::BTreeMap;

const NOW: &str = "2026-07-18T00:00:00+00:00";

/// Directories, links and records in memory, with faults on demand.
struct World {
    dirs: BTreeMap<String, Vec<(String, u64)>>,
    links: BTreeMap<String, String>,
    store: Store,
    journal: Journal,
    history: History,
    cancelled: bool,
    copy_ok: bool,
    manifest_ok: bool,
    junction_fails: bool,
    link_resolves: bool,
    rename_ok: bool,
    rename_source_ok: bool,
    incremental_copy_ok: bool,
    recycle_ok: bool,
    source_changed_during_copy: bool,
    source_keeps_changing: bool,
    history_ok: bool,
    store_ok: bool,
    list_ok: bool,
    drop_journal_at: Option<(&'static str, u8)>,
    old_listings: usize,
    copies: Vec<String>,
    listings: Vec<String>,
    renames: Vec<(String, String)>,
    junctions: Vec<(String, String)>,
    recycled: Vec<String>,
    marks: Vec<Mark>,
    events: Vec<ProgressEvent>,
}

fn refused(text: &str) -> AppError {
    AppError::Migrate(text.into())
}

impl World {
    fn new() -> Self {
        World {
            dirs: BTreeMap::new(),
            links: BTreeMap::new(),
            store: Store::new("data".into()),
            journal: Journal::new(),
            history: History::new(),
            cancelled: false,
            copy_ok: true,
            manifest_ok: true,
            junction_fails: false,
            link_resolves: true,
            rename_ok: true,
            rename_source_ok: true,
            incremental_copy_ok: true,
            recycle_ok: true,
            source_changed_during_copy: false,
            source_keeps_changing: false,
            history_ok: true,
            store_ok: true,
            list_ok: true,
            drop_journal_at: None,
            old_listings: 0,
            copies: Vec::new(),
            listings: Vec::new(),
            renames: Vec::new(),
            junctions: Vec::new(),
            recycled: Vec::new(),
            marks: Vec::new(),
            events: Vec::new(),
        }
    }

    fn report(&mut self, e: ProgressEvent) {
        if let Some((stage, percent)) = self.drop_journal_at {
            if e.stage == stage && e.percent == percent {
                self.journal = Journal::new();
            }
        }
        self.events.push(e);
    }

    fn manifest_of(&self, path: &str) -> Manifest {
        let files = self.dirs.get(path).cloned().unwrap_or_default();
        Manifest {
            root: path.into(),
            entries: files
                .into_iter()
                .map(|(rel_path, size)| ManifestEntry {
                    rel_path,
                    is_dir: false,
                    size,
                    mtime: 0,
                    attrs: 0,
                })
                .collect(),
        }
    }

    fn is_old(path: &str) -> bool {
        path.contains("dayu-old-")
    }

    fn copy(&mut self, from: &str, to: &str) -> Result<CopyOutcome, AppError> {
        self.copies.push(from.to_string());
        let ok = if Self::is_old(from) { self.incremental_copy_ok } else { self.copy_ok };
        if !ok {
            return Err(refused("copy fail"));
        }
        let files = self.dirs.get(from).cloned().unwrap_or_default();
        self.dirs.insert(to.to_string(), files);
        let copied = self.manifest_of(from);
        let mut written = self.manifest_of(to);
        if !self.manifest_ok {
            written.entries.clear();
        }
        let total_bytes = copied.entries.iter().map(|e| e.size).sum();
        let total_files = copied.entries.len() as u64;
        Ok(CopyOutcome { copied_manifest: copied, dst_manifest: written, total_bytes, total_files })
    }

    fn list(&mut self, path: &str) -> Result<Manifest, AppError> {
        self.listings.push(path.to_string());
        if !self.list_ok {
            return Err(refused("list fail"));
        }
        if Self::is_old(path) {
            self.old_listings += 1;
            let changed = if self.old_listings == 1 {
                self.source_changed_during_copy
            } else {
                self.source_keeps_changing
            };
            if changed {
                return Ok(Manifest { root: String::new(), entries: vec![] });
            }
        }
        if !self.manifest_ok && path.contains("dayu-restore-") {
            return Ok(Manifest { root: String::new(), entries: vec![] });
        }
        Ok(self.manifest_of(path))
    }

    fn rename(&mut self, from: &str, to: &str) -> Result<(), AppError> {
        self.renames.push((from.to_string(), to.to_string()));
        let later = from.contains("dayu-old-") || from.contains("dayu-restore-");
        let ok = if later { self.rename_ok } else { self.rename_source_ok };
        if !ok {
            return Err(refused("rename fail"));
        }
        match self.dirs.remove(from) {
            Some(files) => {
                self.dirs.insert(to.to_string(), files);
                Ok(())
            }
            None => Err(refused("nothing to rename")),
        }
    }

    fn link(&mut self, link: &str, target: &str) -> Result<(), AppError> {
        self.junctions.push((link.to_string(), target.to_string()));
        if self.junction_fails {
            return Err(AppError::Junction("mock junction fail".into()));
        }
        self.links.insert(link.to_string(), target.to_string());
        Ok(())
    }

    fn resolves(&self, link: &str) -> bool {
        self.link_resolves
            && self.links.get(link).is_some_and(|target| self.dirs.contains_key(target))
    }

    fn recycle(&mut self, path: &str) -> Result<(), AppError> {
        if !self.recycle_ok {
            return Err(AppError::Win32("recycle fail".into()));
        }
        self.dirs.remove(path);
        self.recycled.push(path.to_string());
        Ok(())
    }

    fn save(&self) -> Result<(), AppError> {
        if self.store_ok {
            Ok(())
        } else {
            Err(AppError::Store("store fail".into()))
        }
    }
}

fn src() -> String {
    "C:/work/src".into()
}

fn plan_for(id: &str) -> MigratePlan {
    MigratePlan {
        task_id: format!("t-{id}"),
        migration_id: format!("m-{id}"),
        src: src(),
        target: "D:/repo/sub/m/data".into(),
        tmp: "D:/repo/sub/m/data.tmp".into(),
        old_path: format!("{}.dayu-old-t-{id}", src()),
        preset_id: None,
        source_volume_serial: "C".into(),
        target_volume_serial: "D".into(),
        enable_vss: false,
        copy_concurrency: None,
    }
}

fn fixtures() -> World {
    let mut w = World::new();
    w.dirs.insert(src(), vec![("a.txt".into(), 5)]);
    w
}

fn copy_progress(o: &CopyOutcome) -> CopyProgress {
    CopyProgress {
        phase: CopyPhase::Copying,
        completed_bytes: o.total_bytes,
        total_bytes: Some(o.total_bytes),
        completed_files: o.total_files,
        total_files: Some(o.total_files),
        current_path: None,
    }
}

type MigrateResult = Result<(Migration, OperationOutcome), (AppError, OperationOutcome)>;

fn migrate_from(w: &mut World, plan: &MigratePlan, device: Option<&str>) -> MigrateResult {
    let resolver = SrcResolver::new(&plan.src, device);
    let mut run = MigrateRun::start(resolver.vss_enabled());
    let place = |p: Place| -> String {
        match p {
            Place::Source => plan.src.clone(),
            Place::ReadRoot => resolver.read().to_string(),
            Place::Target => plan.target.clone(),
            Place::Tmp => plan.tmp.clone(),
            Place::Old => plan.old_path.clone(),
        }
    };
    loop {
        if let Some(e) = run.announcement(&plan.task_id) {
            w.report(e);
        }
        let event = match run.action() {
            Action::IsReparsePoint(p) => Event::Answer(w.links.contains_key(&place(p))),
            Action::PollCancel => Event::Answer(w.cancelled),
            Action::JunctionResolves => Event::Answer(w.resolves(&plan.src)),
            Action::JournalBegin => Event::Done(plan.begin_in(&mut w.journal)),
            Action::JournalMark(m) => {
                w.marks.push(m);
                Event::Done(w.journal.mark_stage(&plan.task_id, m.as_str()))
            }
            Action::JournalFail(note) => {
                Event::Done(w.journal.fail(&plan.task_id, note.as_str()))
            }
            Action::JournalCancel => Event::Done(w.journal.cancel(&plan.task_id)),
            Action::JournalComplete => Event::Done(w.journal.complete(&plan.task_id)),
            Action::CopyTree(a, b) => {
                let r = w.copy(&place(a), &place(b));
                if let Ok(o) = &r {
                    let e = run.copy_event(&plan.task_id, &copy_progress(o));
                    w.report(e);
                }
                Event::Copied(r)
            }
            Action::ListTree(p) => Event::Listed(w.list(&place(p))),
            Action::RemoveTree(p) => {
                w.dirs.remove(&place(p));
                Event::Done(Ok(()))
            }
            Action::Rename(a, b) => Event::Done(w.rename(&place(a), &place(b))),
            Action::MakeParent(_) => Event::Done(Ok(())),
            Action::CreateJunction => Event::Done(w.link(&plan.src, &plan.target)),
            Action::RemoveJunction => {
                w.links.remove(&plan.src);
                Event::Done(Ok(()))
            }
            Action::WriteRecord(status) => {
                let r = w.save();
                if r.is_ok() {
                    w.store.upsert_migration(run.record(plan, status));
                }
                Event::Done(r)
            }
            Action::RemoveRecord => unreachable!(),
            Action::Recycle(p) => Event::Done(w.recycle(&place(p))),
            Action::WriteHistory => {
                if w.history_ok {
                    w.history.append(run.history(plan, NOW.into()));
                    Event::Done(Ok(()))
                } else {
                    Event::Done(Err(AppError::Store("history fail".into())))
                }
            }
            Action::Stop => return run.finish(plan),
        };
        run.advance(event);
    }
}

fn migrate(w: &mut World, plan: &MigratePlan) -> MigrateResult {
    migrate_from(w, plan, None)
}

#[test]
fn migrate_success_creates_junction_records_and_logs() {
    let mut w = fixtures();
    let plan = plan_for("1");
    let (m, outcome) = migrate(&mut w, &plan).unwrap();
    assert_eq!(m.status, MigrationStatus::Active);
    assert!(outcome.source_changed);
    assert_eq!(outcome.reason, "migrated");
    assert!(w.links.contains_key(&plan.src));
    assert!(w.dirs[&plan.target].iter().any(|(name, _)| name == "a.txt"));
    assert!(w.store.migrations.iter().any(|x| x.id == "m-1"));
    let migrated = w.history.list(Some("migrate"), None);
    assert!(migrated.iter().any(|h| h.id == "m-1" && h.result == "ok"));
    assert!(w.journal.recover_pending().is_empty());
    let copied = w
        .events
        .iter()
        .find(|event| {
            event.stage == stage::COPYING
                && event.transfer.as_ref().is_some_and(|progress| progress.phase == "copying")
        })
        .expect("the copy reports its transfer");
    let transfer = copied.transfer.as_ref().unwrap();
    assert_eq!(transfer.total_bytes, Some(5));
    assert_eq!(transfer.total_files, Some(1));
    assert!(copied.percent <= 60);
    assert_eq!(w.events.last().unwrap().percent, 100);
}

#[test]
fn recorded_paths_have_backslashes_and_a_time() {
    let mut w = fixtures();
    let plan = plan_for("r");
    let (m, _) = migrate(&mut w, &plan).unwrap();
    assert_eq!(m.source, "C:\\work\\src");
    assert_eq!(m.target, "D:\\repo\\sub\\m\\data");
    assert_eq!(m.old_path, "C:\\work\\src.dayu-old-t-r");
    assert!(m.created_at.ends_with("+00:00"));
    assert!(m.pending_cleanup.is_none());
    assert_eq!(w.recycled, vec![plan.old_path]);
}

#[test]
fn migrate_stops_when_source_rename_stage_cannot_be_journaled() {
    let mut w = fixtures();
    w.drop_journal_at = Some((stage::RENAMING_SOURCE, 70));
    let (_error, outcome) = migrate(&mut w, &plan_for("journal-stage")).unwrap_err();
    assert!(outcome.source_changed);
    assert_eq!(outcome.reason, "migrate_partial");
    assert!(w.junctions.is_empty());
}

#[test]
fn migrate_rolls_back_when_copy_fails_keeps_source() {
    let mut w = fixtures();
    w.copy_ok = false;
    let plan = plan_for("c");
    let (_e, outcome) = migrate(&mut w, &plan).unwrap_err();
    assert!(w.dirs[&plan.src].iter().any(|(name, _)| name == "a.txt"));
    assert!(w.store.migrations.is_empty());
    assert!(!outcome.source_changed);
    assert_eq!(outcome.reason, "migrate_rolled_back");
}

#[test]
fn migrate_aborts_when_manifest_mismatch_keeps_tmp() {
    let mut w = fixtures();
    w.manifest_ok = false;
    let plan = plan_for("m");
    let (e, outcome) = migrate(&mut w, &plan).unwrap_err();
    assert!(w.dirs[&plan.src].iter().any(|(name, _)| name == "a.txt"));
    assert!(!outcome.source_changed);
    assert!(w.dirs.contains_key(&plan.tmp));
    assert_eq!(e.describe(), "迁移失败: manifest 不一致，已保留 tmp 待人工确认");
}

#[test]
fn migrate_cancellation_cleans_tmp_and_logs_canceled() {
    let mut w = fixtures();
    w.cancelled = true;
    let plan = plan_for("x");
    let (e, outcome) = migrate(&mut w, &plan).unwrap_err();
    assert!(matches!(e, AppError::Cancelled));
    assert!(w.store.migrations.is_empty());
    assert!(!outcome.source_changed);
    assert_eq!(outcome.reason, "migrate_canceled");
    assert!(!w.dirs.contains_key(&plan.tmp));
    assert!(w.journal.recover_pending().is_empty());
}

#[test]
fn migrate_source_changed_tracking() {
    let mut w = fixtures();
    let (_mig, outcome) = migrate(&mut w, &plan_for("ok")).unwrap();
    assert!(outcome.source_changed);
    assert_eq!(outcome.reason, "migrated");

    let mut w = fixtures();
    w.copy_ok = false;
    let (_e, outcome) = migrate(&mut w, &plan_for("cpf")).unwrap_err();
    assert!(!outcome.source_changed);
    assert_eq!(outcome.reason, "migrate_rolled_back");

    let mut w = fixtures();
    w.rename_source_ok = false;
    let (_e, outcome) = migrate(&mut w, &plan_for("rsf")).unwrap_err();
    assert!(!outcome.source_changed);
    assert_eq!(outcome.reason, "migrate_rolled_back");

    let mut w = fixtures();
    w.source_changed_during_copy = true;
    w.incremental_copy_ok = false;
    let (_e, outcome) = migrate(&mut w, &plan_for("isf")).unwrap_err();
    assert!(outcome.source_changed);
    assert_eq!(outcome.reason, "migrate_partial");

    let mut w = fixtures();
    w.junction_fails = true;
    let (_e, outcome) = migrate(&mut w, &plan_for("cjf")).unwrap_err();
    assert!(outcome.source_changed);
    assert_eq!(outcome.reason, "migrate_partial");

    let mut w = fixtures();
    w.recycle_ok = false;
    let (migration, outcome) = migrate(&mut w, &plan_for("recfail")).unwrap();
    assert!(outcome.source_changed);
    assert_eq!(outcome.reason, "migrated");
    assert_eq!(migration.status, MigrationStatus::OldPendingDelete);
    assert_eq!(w.store.migrations[0].status, MigrationStatus::OldPendingDelete);
    assert_eq!(migration.pending_cleanup.as_deref(), Some("Win32 错误: recycle fail"));
}

#[test]
fn migrate_rolled_back_failure_no_junction_left() {
    let mut w = fixtures();
    w.copy_ok = false;
    let plan = plan_for("clean");
    assert!(migrate(&mut w, &plan).is_err());
    assert!(w.dirs.contains_key(&plan.src));
    assert!(w.dirs[&plan.src].iter().any(|(name, _)| name == "a.txt"));
    assert!(!w.links.contains_key(&plan.src));
    assert!(!w.dirs.contains_key(&plan.target));
    assert!(!w.dirs.contains_key(&plan.tmp));
    assert!(w.store.migrations.is_empty());
}

#[test]
fn migrate_c_prime_skips_sync_when_source_unchanged() {
    let mut w = fixtures();
    migrate(&mut w, &plan_for("cprime-skip")).unwrap();
    assert!(!w.copies.iter().any(|p| p.contains("dayu-old-")), "{:?}", w.copies);
}

#[test]
fn migrate_c_prime_incremental_fail_rolls_back_rename() {
    let mut w = fixtures();
    w.source_changed_during_copy = true;
    w.incremental_copy_ok = false;
    let plan = plan_for("cprime-incfail");
    let (_e, outcome) = migrate(&mut w, &plan).unwrap_err();
    assert!(outcome.source_changed);
    assert_eq!(outcome.reason, "migrate_partial");
    assert!(w.dirs.contains_key(&plan.src));
}

#[test]
fn migrate_c_prime_source_keeps_changing_rolls_back_rename() {
    let mut w = fixtures();
    w.source_changed_during_copy = true;
    w.source_keeps_changing = true;
    let plan = plan_for("cprime-keepchanging");
    let (e, outcome) = migrate(&mut w, &plan).unwrap_err();
    assert!(outcome.source_changed);
    assert_eq!(outcome.reason, "migrate_partial");
    assert_eq!(e.describe(), "迁移失败: 补传期间源发生变化");
    assert!(w.dirs.contains_key(&plan.src));
}

#[test]
fn migrate_c_prime_source_changed_then_stable_succeeds() {
    let mut w = fixtures();
    w.source_changed_during_copy = true;
    let (m, outcome) = migrate(&mut w, &plan_for("cprime-stable")).unwrap();
    assert!(outcome.source_changed);
    assert_eq!(outcome.reason, "migrated");
    assert_eq!(m.status, MigrationStatus::Active);
}

#[test]
fn migrate_history_append_failure_reports_partial() {
    let mut w = fixtures();
    w.history_ok = false;
    let (_e, outcome) = migrate(&mut w, &plan_for("haf")).unwrap_err();
    assert!(outcome.source_changed);
    assert_eq!(outcome.reason, "migrate_partial");
}

#[test]
fn migrate_journal_complete_failure_reports_partial() {
    let mut w = fixtures();
    w.drop_journal_at = Some((stage::CLEANING, 99));
    let (_e, outcome) = migrate(&mut w, &plan_for("jcf")).unwrap_err();
    assert!(outcome.source_changed);
    assert_eq!(outcome.reason, "migrate_partial");
}

#[test]
fn non_vss_migrate_reads_original_and_writes_original() {
    let mut w = fixtures();
    let plan = plan_for("rv");
    migrate(&mut w, &plan).unwrap();
    assert!(w.copies.iter().any(|p| *p == plan.src), "{:?}", w.copies);
    assert!(w.renames.iter().any(|(f, _t)| *f == plan.src), "{:?}", w.renames);
    assert!(!w.copies.iter().any(|p| *p == plan.old_path), "{:?}", w.copies);
    assert!(w.listings.iter().any(|p| *p == plan.old_path), "{:?}", w.listings);
}

#[test]
fn snapshot_migrate_reads_the_shadow_and_skips_the_sync() {
    let mut w = fixtures();
    let device = r"\\?\GLOBALROOT\Device\HarddiskVolumeShadowCopy9";
    let shadow = format!(r"{device}\work\src");
    w.dirs.insert(shadow.clone(), vec![("a.txt".into(), 5)]);
    let plan = plan_for("vss");
    migrate_from(&mut w, &plan, Some(device)).unwrap();
    assert_eq!(w.copies, vec![shadow]);
    assert!(w.renames.iter().any(|(f, _t)| *f == plan.src));
    assert!(w.listings.is_empty());
    assert!(w.marks.contains(&Mark::IncrementalSynced));
}

#[test]
fn src_resolver_vss_returns_shadow_device_path() {
    let dev = r"\\?\GLOBALROOT\Device\HarddiskVolumeShadowCopy7";
    let r = SrcResolver::new(r"C:\Users\x\cache", Some(dev));
    assert!(r.vss_enabled());
    assert_eq!(r.read(), r"\\?\GLOBALROOT\Device\HarddiskVolumeShadowCopy7\Users\x\cache");
}

#[test]
fn migrating_a_link_is_refused() {
    let mut w = fixtures();
    let plan = plan_for("link");
    w.links.insert(plan.src.clone(), "D:/elsewhere".into());
    let (e, outcome) = migrate(&mut w, &plan).unwrap_err();
    assert_eq!(e.describe(), "迁移失败: 源已是 reparse point，不能重复迁移");
    assert!(!outcome.source_changed);
    assert_eq!(outcome.reason, "migrate_rejected_reparse");
    assert_eq!(w.journal.len(), 0);
}

#[test]
fn unlistable_source_gets_its_name_back() {
    let mut w = fixtures();
    w.list_ok = false;
    let plan = plan_for("unlistable");
    let (_e, outcome) = migrate(&mut w, &plan).unwrap_err();
    assert!(outcome.source_changed);
    assert_eq!(outcome.reason, "migrate_partial");
    assert!(w.dirs.contains_key(&plan.src));
    assert!(w.dirs.contains_key(&plan.tmp));
    assert!(w.journal.recover_pending().is_empty());
}

#[test]
fn unresolved_link_is_removed_and_the_source_comes_back() {
    let mut w = fixtures();
    w.link_resolves = false;
    let plan = plan_for("unresolved");
    let (e, outcome) = migrate(&mut w, &plan).unwrap_err();
    assert_eq!(e.describe(), "junction 错误: junction 解析失败");
    assert!(outcome.source_changed);
    assert!(!w.links.contains_key(&plan.src));
    assert!(w.dirs.contains_key(&plan.src));
    assert!(w.dirs.contains_key(&plan.tmp));
    assert!(w.recycled.is_empty());
}

#[test]
fn unrecorded_link_stays_pending() {
    let mut w = fixtures();
    w.store_ok = false;
    let plan = plan_for("unrecorded");
    let (_e, outcome) = migrate(&mut w, &plan).unwrap_err();
    assert_eq!(outcome.reason, "migrate_partial");
    assert!(w.links.contains_key(&plan.src));
    assert!(w.dirs.contains_key(&plan.old_path));
    let pending = w.journal.recover_pending();
    assert_eq!(pending.len(), 1);
    assert_eq!(pending[0].stage, "pending_record");
}

#[test]
fn stages_are_noted_before_and_after_each_switch() {
    let mut w = fixtures();
    migrate(&mut w, &plan_for("marks")).unwrap();
    assert_eq!(
        w.marks,
        vec![
            Mark::Copied,
            Mark::ManifestOk,
            Mark::RenamingSource,
            Mark::SourceRenamed,
            Mark::IncrementalSynced,
            Mark::JunctionCreated,
            Mark::RecordWritten,
            Mark::OldRecycled,
        ]
    );
}

#[test]
fn a_busy_source_is_not_migrated_again() {
    let mut w = fixtures();
    w.journal.begin("other", "m", "migrate", &src(), "D:/x", "D:/x.tmp", "C:/x.old").unwrap();
    let (e, outcome) = migrate(&mut w, &plan_for("busy")).unwrap_err();
    assert!(matches!(e, AppError::Conflict(_)));
    assert!(!outcome.source_changed);
    assert!(w.copies.is_empty());
}

fn restore_fixture(id: &str) -> (World, Migration) {
    let mut w = World::new();
    let target = "D:/repo/m/data".to_string();
    w.dirs.insert(target.clone(), vec![("a.txt".into(), 5)]);
    w.links.insert(src(), target.clone());
    let mig = Migration {
        id: format!("m-{id}"),
        schema_version: 1,
        source: src(),
        target,
        old_path: String::new(),
        preset: None,
        created_at: "2026-07-18T00:00:00Z".into(),
        status: MigrationStatus::Active,
        source_volume_serial: "C".into(),
        target_volume_serial: "D".into(),
        recycle_bin_ref: String::new(),
        pending_cleanup: None,
    };
    w.store.upsert_migration(mig.clone());
    (w, mig)
}

type RestoreResult = Result<OperationOutcome, (AppError, OperationOutcome)>;

fn restore(w: &mut World, mig: &Migration) -> RestoreResult {
    let mut run = RestoreRun::start();
    let task_id = RestoreRun::task_id(mig);
    let tmp = RestoreRun::restore_tmp(mig);
    let place = |p: Place| -> String {
        match p {
            Place::Source => mig.source.clone(),
            Place::ReadRoot | Place::Target => mig.target.clone(),
            Place::Tmp => tmp.clone(),
            Place::Old => unreachable!(),
        }
    };
    loop {
        if let Some(e) = run.announcement(&task_id) {
            w.report(e);
        }
        let event = match run.action() {
            Action::PollCancel => Event::Answer(w.cancelled),
            Action::JunctionResolves => Event::Answer(w.resolves(&mig.source)),
            Action::JournalBegin => Event::Done(RestoreRun::begin_in(mig, &mut w.journal)),
            Action::JournalMark(m) => {
                w.marks.push(m);
                Event::Done(w.journal.mark_stage(&task_id, m.as_str()))
            }
            Action::JournalFail(note) => Event::Done(w.journal.fail(&task_id, note.as_str())),
            Action::JournalCancel => Event::Done(w.journal.cancel(&task_id)),
            Action::JournalComplete => Event::Done(w.journal.complete(&task_id)),
            Action::CopyTree(a, b) => {
                let r = w.copy(&place(a), &place(b));
                if let Ok(o) = &r {
                    let e = RestoreRun::copy_event(&task_id, &copy_progress(o));
                    w.report(e);
                }
                Event::Copied(r)
            }
            Action::ListTree(p) => Event::Listed(w.list(&place(p))),
            Action::RemoveTree(p) => {
                w.dirs.remove(&place(p));
                Event::Done(Ok(()))
            }
            Action::Rename(a, b) => Event::Done(w.rename(&place(a), &place(b))),
            Action::CreateJunction => Event::Done(w.link(&mig.source, &mig.target)),
            Action::RemoveJunction => {
                w.links.remove(&mig.source);
                Event::Done(Ok(()))
            }
            Action::WriteRecord(status) => {
                let r = w.save();
                if r.is_ok() {
                    w.store.upsert_migration(RestoreRun::record(mig, status));
                }
                Event::Done(r)
            }
            Action::RemoveRecord => {
                let r = w.save();
                if r.is_ok() {
                    w.store.remove_migration(&mig.id);
                }
                Event::Done(r)
            }
            Action::Recycle(p) => Event::Done(w.recycle(&place(p))),
            Action::WriteHistory => {
                if w.history_ok {
                    w.history.append(RestoreRun::history(mig, NOW.into()));
                    Event::Done(Ok(()))
                } else {
                    Event::Done(Err(AppError::Store("history fail".into())))
                }
            }
            Action::Stop => return run.finish(),
            Action::IsReparsePoint(_) | Action::MakeParent(_) => unreachable!(),
        };
        run.advance(event);
    }
}

#[test]
fn restore_success_recovers_dir_and_removes_link() {
    let (mut w, mig) = restore_fixture("1");
    let outcome = restore(&mut w, &mig).unwrap();
    assert!(outcome.source_changed);
    assert_eq!(outcome.reason, "restored");
    assert!(!w.links.contains_key(&mig.source));
    assert!(w.dirs[&mig.source].iter().any(|(name, _)| name == "a.txt"));
    assert!(w.store.migrations.iter().all(|x| x.id != "m-1"));
    let r = w.history.list(Some("restore"), None);
    assert!(r.iter().any(|h| h.id == "m-1" && h.result == "ok"));
    assert_eq!(w.recycled, vec![mig.target]);
    assert_eq!(w.events.last().unwrap().percent, 100);
}

#[test]
fn restore_aborts_when_junction_invalid() {
    let (mut w, mig) = restore_fixture("2");
    w.dirs.remove(&mig.target);
    let (e, outcome) = restore(&mut w, &mig).unwrap_err();
    assert_eq!(e.describe(), "junction 错误: junction 已失效，无法还原");
    assert!(!outcome.source_changed);
    assert_eq!(outcome.reason, "restore_rolled_back");
}

#[test]
fn restore_switch_fail_rebuilds_junction() {
    let (mut w, mig) = restore_fixture("3");
    w.rename_ok = false;
    let (_e, outcome) = restore(&mut w, &mig).unwrap_err();
    assert_eq!(w.junctions.len(), 1);
    assert_eq!(w.junctions[0].0, mig.source);
    assert_eq!(w.junctions[0].1, mig.target);
    assert!(outcome.source_changed);
    assert_eq!(outcome.reason, "restore_partial");
}

#[test]
fn restore_remove_migration_failure_reports_partial() {
    let (mut w, mig) = restore_fixture("rmf");
    w.store_ok = false;
    let (_e, outcome) = restore(&mut w, &mig).unwrap_err();
    assert!(outcome.source_changed);
    assert_eq!(outcome.reason, "restore_partial");
}

#[test]
fn restore_history_append_failure_reports_partial() {
    let (mut w, mig) = restore_fixture("rhaf");
    w.history_ok = false;
    let (_e, outcome) = restore(&mut w, &mig).unwrap_err();
    assert!(outcome.source_changed);
    assert_eq!(outcome.reason, "restore_partial");
}

#[test]
fn restore_keeps_a_record_of_data_that_is_left() {
    let (mut w, mig) = restore_fixture("kept");
    w.recycle_ok = false;
    let outcome = restore(&mut w, &mig).unwrap();
    assert_eq!(outcome.reason, "restored");
    assert!(w.dirs.contains_key(&mig.target));
    assert_eq!(w.store.migrations.len(), 1);
    assert_eq!(w.store.migrations[0].status, MigrationStatus::TargetPendingDelete);
}

#[test]
fn restore_loses_no_record_where_writing_fails() {
    let (mut w, mig) = restore_fixture("kwf");
    w.recycle_ok = false;
    w.store_ok = false;
    let outcome = restore(&mut w, &mig).unwrap();
    assert_eq!(outcome.reason, "restored");
    assert!(outcome.source_changed);
    assert_eq!(w.store.migrations.len(), 1);
    assert!(w.dirs.contains_key(&mig.target));
}

#[test]
fn restore_asks_for_the_record_only_after_the_data() {
    for recycled in [true, false] {
        let mut run = RestoreRun::start();
        let mut asked = Vec::new();
        let tree = || Manifest { root: "r".into(), entries: Vec::new() };
        let copied = || CopyOutcome {
            copied_manifest: tree(),
            dst_manifest: tree(),
            total_bytes: 0,
            total_files: 0,
        };
        loop {
            let action = run.action();
            asked.push(action);
            run.advance(match action {
                Action::Stop => break,
                Action::PollCancel => Event::Answer(false),
                Action::JunctionResolves => Event::Answer(true),
                Action::CopyTree(_, _) => Event::Copied(Ok(copied())),
                Action::ListTree(_) => Event::Listed(Ok(tree())),
                Action::Recycle(_) if !recycled => {
                    Event::Done(Err(AppError::Store("in use".into())))
                }
                _ => Event::Done(Ok(())),
            });
        }
        assert_eq!(run.finish().unwrap().reason, "restored");
        let at = |a: Action| asked.iter().position(|x| *x == a);
        assert_eq!(at(Action::RemoveRecord).is_some(), recycled);
        let kept = Action::WriteRecord(MigrationStatus::TargetPendingDelete);
        assert_eq!(at(kept).is_some(), !recycled);
        let mark = |m: Mark| at(Action::JournalMark(m)).unwrap();
        let unlink = at(Action::RemoveJunction).unwrap();
        let switch = at(Action::Rename(Place::Tmp, Place::Source)).unwrap();
        let recycle = at(Action::Recycle(Place::Target)).unwrap();
        assert!(mark(Mark::RestoreCopied) < unlink);
        assert!(mark(Mark::RestoreManifestOk) < unlink);
        assert!(unlink < mark(Mark::JunctionRemoved) && mark(Mark::JunctionRemoved) < switch);
        assert!(switch < mark(Mark::RestoreSwitched) && mark(Mark::RestoreSwitched) < recycle);
    }
}

#[test]
fn old_data_is_recycled_once_and_last() {
    let tree = || Manifest { root: "r".into(), entries: Vec::new() };
    let copied = || CopyOutcome {
        copied_manifest: tree(),
        dst_manifest: tree(),
        total_bytes: 0,
        total_files: 0,
    };
    for snapshot in [true, false] {
        for broken in 0..40 {
            let mut run = MigrateRun::start(snapshot);
            let mut asked: Vec<(Action, bool)> = Vec::new();
            loop {
                let action = run.action();
                let ok = asked.len() != broken;
                let error = || AppError::Store("fault".into());
                let event = match action {
                    Action::Stop => break,
                    Action::PollCancel | Action::IsReparsePoint(_) => Event::Answer(!ok),
                    Action::JunctionResolves => Event::Answer(ok),
                    Action::CopyTree(_, _) if ok => Event::Copied(Ok(copied())),
                    Action::CopyTree(_, _) => Event::Copied(Err(error())),
                    Action::ListTree(_) if ok => Event::Listed(Ok(tree())),
                    Action::ListTree(_) => Event::Listed(Err(error())),
                    _ if ok => Event::Done(Ok(())),
                    _ => Event::Done(Err(error())),
                };
                asked.push((action, ok));
                run.advance(event);
            }
            let mut recycled = 0;
            for (i, (action, _)) in asked.iter().enumerate() {
                match action {
                    Action::Recycle(place) => {
                        recycled += 1;
                        assert_eq!(*place, Place::Old);
                        let before = &asked[..i];
                        assert!(before.contains(&(Action::CreateJunction, true)));
                        assert!(before.contains(&(Action::JunctionResolves, true)));
                        let record = Action::WriteRecord(MigrationStatus::Active);
                        assert!(before.contains(&(record, true)));
                    }
                    Action::RemoveTree(place) => assert_eq!(*place, Place::Tmp),
                    _ => {}
                }
            }
            assert!(recycled <= 1);
            if broken >= asked.len() {
                assert_eq!(recycled, 1);
            }
        }
    }
}

#[test]
fn restore_mismatch_removes_the_copy_and_keeps_the_link() {
    let (mut w, mig) = restore_fixture("mm");
    w.manifest_ok = false;
    let (e, outcome) = restore(&mut w, &mig).unwrap_err();
    assert_eq!(e.describe(), "迁移失败: 还原校验不一致");
    assert!(!outcome.source_changed);
    assert!(!w.dirs.contains_key(&RestoreRun::restore_tmp(&mig)));
    assert!(w.links.contains_key(&mig.source));
    assert!(w.dirs.contains_key(&mig.target));
}

#[test]
fn unlistable_restore_removes_the_copy() {
    let (mut w, mig) = restore_fixture("ul");
    w.list_ok = false;
    let (_e, outcome) = restore(&mut w, &mig).unwrap_err();
    assert!(!outcome.source_changed);
    assert!(!w.dirs.contains_key(&RestoreRun::restore_tmp(&mig)));
    assert!(w.journal.recover_pending().is_empty());
}

#[test]
fn restored_data_waits_beside_the_source() {
    let (_, mig) = restore_fixture("7");
    assert_eq!(RestoreRun::restore_tmp(&mig), "C:/work/src.dayu-restore-m-7");
    let mut dotted = mig.clone();
    dotted.source = "C:\\a.b\\cache.d\\".into();
    assert_eq!(RestoreRun::restore_tmp(&dotted), "C:\\a.b\\cache.dayu-restore-m-7");
    assert_eq!(RestoreRun::task_id(&mig), "restore-m-7");
}

#[test]
fn extensions_are_those_of_names() {
    let cases = [
        ("C:\\", "C:\\"),
        ("C:", "C:"),
        ("C:/.", "C:/."),
        ("C:\\a\\.", "C:\\a.x"),
        ("C:\\a.b\\.\\./", "C:\\a.x"),
        ("C:cache", "C:cache.x"),
        ("C:.cache", "C:.cache.x"),
        ("C:\\a\\..", "C:\\a\\.."),
        ("a.b.c", "a.b.x"),
        ("", ""),
        (".", "."),
        ("\\\\server\\share", "\\\\server\\share"),
        ("\\\\server\\share\\d.e", "\\\\server\\share\\d.x"),
        ("\\\\server", "\\\\server.x"),
        ("\\\\.\\COM1", "\\\\.\\COM1"),
        ("\\\\?\\C:\\a/b.c", "\\\\?\\C:\\a/b.x"),
        ("\\\\?\\C:\\a\\.", "\\\\?\\C:\\a\\."),
        ("\\\\?\\UNC\\s\\t\\n.o", "\\\\?\\UNC\\s\\t\\n.x"),
        ("\\\\?\\UNC\\s\\t.u", "\\\\?\\UNC\\s\\t.u"),
    ];
    for (path, expected) in cases {
        assert_eq!(with_extension(path, "x"), expected, "{path}");
    }
}

fn break_link(w: &mut World, mig: &Migration, link_ok: bool) -> RestoreResult {
    let mut run = BreakLinkRun::start();
    loop {
        let event = match run.action() {
            Action::RemoveJunction => Event::Done(if link_ok {
                w.links.remove(&mig.source);
                Ok(())
            } else {
                Err(AppError::Junction("remove fail".into()))
            }),
            Action::RemoveRecord => {
                w.store.remove_migration(&mig.id);
                Event::Done(w.save())
            }
            Action::WriteHistory => {
                w.history.append(BreakLinkRun::history(mig, NOW.into()));
                Event::Done(Ok(()))
            }
            Action::Stop => return run.finish(),
            _ => unreachable!(),
        };
        run.advance(event);
    }
}

#[test]
fn broken_links_leave_the_data() {
    let (mut w, mig) = restore_fixture("b");
    let outcome = break_link(&mut w, &mig, true).unwrap();
    assert!(outcome.source_changed);
    assert_eq!(outcome.reason, "broken_link");
    assert!(w.dirs.contains_key(&mig.target));
    assert!(w.links.is_empty());
    assert_eq!(w.history.list(Some("break_link"), None).len(), 1);

    let (mut w, mig) = restore_fixture("b");
    let (_e, outcome) = break_link(&mut w, &mig, false).unwrap_err();
    assert!(!outcome.source_changed);
    assert_eq!(outcome.reason, "break_link_rolled_back");
    assert!(w.links.contains_key(&mig.source));

    let (mut w, mig) = restore_fixture("b");
    w.store_ok = false;
    let (_e, outcome) = break_link(&mut w, &mig, true).unwrap_err();
    assert!(outcome.source_changed);
    assert_eq!(outcome.reason, "break_link_partial");
}
