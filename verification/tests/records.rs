use dayu_disk_manager::atomic_write::{AtomicWrite, WriteAction, WriteEvent};
use dayu_disk_manager::history::History;
use dayu_disk_manager::journal::Journal;
use dayu_disk_manager::models::{HistoryEntry, Migration, MigrationStatus};
use dayu_disk_manager::error::{AppError, IoFault};
use dayu_disk_manager::store::{default_config, ConfigFile, MigrationsFile, Store};

fn entry(op: &str, result: &str, time: &str) -> HistoryEntry {
    HistoryEntry {
        op: op.into(),
        id: "u1".into(),
        src: "C:/s".into(),
        dst: "D:/d".into(),
        result: result.into(),
        time: time.into(),
        duration_sec: 10,
    }
}

#[test]
fn append_then_list_returns_in_order() {
    let mut h = History::new();
    h.append(entry("migrate", "ok", "2026-07-18T10:00:00Z"));
    h.append(entry("restore", "ok", "2026-07-18T11:00:00Z"));
    let all = h.list(None, None);
    assert_eq!(all.len(), 2);
    assert_eq!(all[0].op, "migrate");
}

#[test]
fn list_filter_by_op() {
    let mut h = History::new();
    h.append(entry("migrate", "ok", "2026-07-18T10:00:00Z"));
    h.append(entry("restore", "ok", "2026-07-18T11:00:00Z"));
    h.append(entry("migrate", "failed", "2026-07-18T12:00:00Z"));
    let only_migrate = h.list(Some("migrate"), None);
    assert_eq!(only_migrate.len(), 2);
    assert!(only_migrate.iter().all(|e| e.op == "migrate"));
}

#[test]
fn list_filter_by_time_range() {
    let mut h = History::new();
    h.append(entry("migrate", "ok", "2026-07-18T10:00:00Z"));
    h.append(entry("migrate", "ok", "2026-07-18T11:30:00Z"));
    let ranged = h.list(None, Some(("2026-07-18T11:00:00Z", "2026-07-18T12:00:00Z")));
    assert_eq!(ranged.len(), 1);
}

#[test]
fn listing_sorts_by_time() {
    let h = History::from_entries(vec![
        entry("c", "ok", "2026-07-18T12:00:00Z"),
        entry("a", "ok", "2026-07-18T10:00:00Z"),
        entry("b", "ok", "2026-07-18T11:00:00Z"),
        entry("d", "ok", "2026-07-18T12:00:00Z"),
    ]);
    let ops: Vec<String> = h.list(None, None).into_iter().map(|e| e.op).collect();
    assert_eq!(ops, vec!["a", "b", "c", "d"]);
    let all = h.list(None, Some(("2026-07-18T10:00:00Z", "2026-07-18T12:00:00Z")));
    assert_eq!(all.len(), 2);
}

#[test]
fn begin_then_mark_stage_appended() {
    let mut j = Journal::new();
    j.begin("t1", "m1", "migrate", "C:/s", "D:/d", "D:/d.tmp", "C:/s.old").unwrap();
    j.mark_stage("t1", "copied").unwrap();
    let pending = j.recover_pending();
    assert_eq!(pending.len(), 1);
    assert_eq!(pending[0].stage, "copied");
}

#[test]
fn complete_removes_from_pending() {
    let mut j = Journal::new();
    j.begin("t1", "m1", "migrate", "C:/s", "D:/d", "D:/d.tmp", "C:/s.old").unwrap();
    j.complete("t1").unwrap();
    assert!(j.recover_pending().is_empty());
}

#[test]
fn begin_rejects_conflicting_source() {
    let mut j = Journal::new();
    j.begin("t1", "m1", "migrate", "C:/s", "D:/d", "D:/d.tmp", "C:/s.old").unwrap();
    let err = j.begin("t2", "m2", "migrate", "C:/s", "D:/d2", "D:/d2.tmp", "C:/s.old2");
    assert!(err.is_err());
}

#[test]
fn begin_rejects_conflicting_target() {
    let mut j = Journal::new();
    j.begin("t1", "m1", "migrate", "C:/s", "D:/d", "D:/d.tmp", "C:/s.old").unwrap();
    let err = j.begin("t2", "m2", "migrate", "C:/s2", "D:/d", "D:/d2.tmp", "C:/s.old2");
    assert!(err.is_err());
    assert_eq!(j.len(), 1);
}

#[test]
fn begin_allows_different_source() {
    let mut j = Journal::new();
    j.begin("t1", "m1", "migrate", "C:/s", "D:/d", "D:/d.tmp", "C:/s.old").unwrap();
    let res = j.begin("t2", "m2", "migrate", "C:/s2", "D:/d2", "D:/d2.tmp", "C:/s2.old2");
    assert!(res.is_ok());
}

#[test]
fn recover_pending_returns_latest_stage_per_task() {
    let mut j = Journal::new();
    j.begin("t1", "m1", "migrate", "C:/s", "D:/d", "D:/d.tmp", "C:/s.old").unwrap();
    j.mark_stage("t1", "copied").unwrap();
    j.mark_stage("t1", "manifest_ok").unwrap();
    let pending = j.recover_pending();
    assert_eq!(pending.len(), 1);
    assert_eq!(pending[0].stage, "manifest_ok");
}

#[test]
fn fail_marks_terminal_and_removed_from_pending() {
    let mut j = Journal::new();
    j.begin("t1", "m1", "migrate", "C:/s", "D:/d", "D:/d.tmp", "C:/s.old").unwrap();
    j.fail("t1", "磁盘满").unwrap();
    assert!(j.recover_pending().is_empty());
}

#[test]
fn begin_allows_restore_after_migrate_completes() {
    let mut j = Journal::new();
    j.begin("t-mig", "m1", "migrate", "C:/src", "D:/data", "D:/data.tmp", "C:/src.old").unwrap();
    j.mark_stage("t-mig", "copied").unwrap();
    j.complete("t-mig").unwrap();
    let res = j.begin("t-rst", "m1", "restore", "C:/src", "D:/data", "D:/data.tmp", "C:/src.old");
    assert!(res.is_ok(), "{:?}", res.err());
}

#[test]
fn journal_lines_carry_the_time() {
    let mut j = Journal::new();
    j.begin("t1", "m1", "migrate", "C:/s", "D:/d", "D:/d.tmp", "C:/s.old").unwrap();
    j.cancel("t1").unwrap();
    assert_eq!(j.len(), 2);
    for i in 0..2 {
        let time = &j.entry(i).time;
        assert!(time.ends_with("+00:00"), "{time}");
        assert!(time.len() >= 25);
        assert_eq!(&time[4..5], "-");
        assert_eq!(&time[10..11], "T");
    }
    assert!(j.entry(0).final_mark.is_none());
    assert!(j.entry(1).final_mark.is_some());
}

#[test]
fn unknown_tasks_cannot_go_on() {
    let mut j = Journal::new();
    assert!(j.mark_stage("t1", "copied").is_err());
    assert!(j.complete("t1").is_err());
    assert!(j.cancel("t1").is_err());
    assert!(j.fail("t1", "x").is_err());
    assert_eq!(j.len(), 0);
}

#[test]
fn load_config_returns_default_when_missing() {
    let cfg = Store::load_config(ConfigFile::Missing, None).unwrap();
    assert_eq!(cfg.schema_version, 1);
    assert_eq!(cfg.scan.min_size_mb, 500);
    assert!(!cfg.presets.is_empty());
    assert!(cfg.presets.iter().any(|p| p.id == "wechat"));
}

#[test]
fn save_then_load_config_roundtrip() {
    let mut cfg = Store::load_config(ConfigFile::Missing, None).unwrap();
    cfg.repository = "E:/Migrated2".into();
    let again = Store::load_config(ConfigFile::Parsed(cfg), None).unwrap();
    assert_eq!(again.repository, "E:/Migrated2");
}

#[test]
fn corrupt_config_falls_back_to_default() {
    let cfg = Store::load_config(ConfigFile::Corrupt, None).unwrap();
    assert_eq!(cfg.repository, "D:/Migrated");
}

#[test]
fn corrupt_config_falls_back_to_backup() {
    let mut saved = default_config();
    saved.repository = "E:/Backup".into();
    let cfg = Store::load_config(ConfigFile::Corrupt, Some(saved)).unwrap();
    assert_eq!(cfg.repository, "E:/Backup");
}

#[test]
fn presets_are_put_into_a_config_without_any() {
    let mut saved = default_config();
    saved.presets = Vec::new();
    let cfg = Store::load_config(ConfigFile::Parsed(saved), None).unwrap();
    assert_eq!(cfg.presets.len(), default_config().presets.len());
}

fn sample(id: &str) -> Migration {
    Migration {
        id: id.into(),
        schema_version: 1,
        source: "C:/src".into(),
        target: "D:/dst".into(),
        old_path: "C:/src.dayu-old-t1".into(),
        preset: None,
        created_at: "2026-07-18T10:00:00Z".into(),
        status: MigrationStatus::Active,
        source_volume_serial: "AAA".into(),
        target_volume_serial: "BBB".into(),
        recycle_bin_ref: String::new(),
        pending_cleanup: None,
    }
}

/// The file of the migrations and its backup, in memory.
#[derive(Default)]
struct MigrationFiles {
    main: Option<Vec<Migration>>,
    tmp: Option<Vec<Migration>>,
    backup: Option<Vec<Migration>>,
}

impl MigrationFiles {
    fn load(&self) -> Store {
        let file = match &self.main {
            Some(table) => MigrationsFile::Parsed(table.clone()),
            None => MigrationsFile::Missing,
        };
        let mut s = Store::new("data".into());
        s.migrations = Store::load_migrations(file, self.backup.clone()).unwrap();
        s
    }

    /// Stops after `steps` steps.
    fn save(&mut self, s: Store, steps: usize) {
        let mut write = AtomicWrite::start();
        for _ in 0..steps {
            match write.action() {
                WriteAction::WriteTmp => self.tmp = Some(s.migrations.clone()),
                WriteAction::RemoveBackup => self.backup = None,
                WriteAction::KeepBackup => self.backup = self.main.take(),
                WriteAction::Replace => self.main = self.tmp.take(),
                WriteAction::PutBack => self.main = self.backup.take(),
                WriteAction::MainExists => {}
                WriteAction::Stop => return write.finish().unwrap(),
            }
            let event = match write.action() {
                WriteAction::MainExists => WriteEvent::Answer(self.main.is_some()),
                _ => WriteEvent::Done(Ok(())),
            };
            write.advance(event);
        }
    }

    fn upsert(&mut self, m: Migration) {
        let mut s = self.load();
        s.upsert_migration(m);
        self.save(s, usize::MAX);
    }
}

#[test]
fn save_migrations_creates_bak_on_second_write() {
    let mut files = MigrationFiles::default();
    files.upsert(sample("u1"));
    assert!(files.main.is_some());
    assert!(files.backup.is_none());
    files.upsert(sample("u2"));
    assert!(files.backup.is_some());
    let loaded = files.load();
    assert_eq!(loaded.migrations.len(), 2);
}

#[test]
fn interrupted_writes_lose_no_record() {
    for steps in 0..8 {
        let mut files = MigrationFiles::default();
        files.upsert(sample("u1"));
        let mut s = files.load();
        s.upsert_migration(sample("u2"));
        files.save(s, steps);
        let found = files.load();
        assert!(found.find_migration("u1").is_some(), "{steps}");
        assert_eq!(found.find_migration("u2").is_some(), steps >= 5, "{steps}");
    }
}

#[test]
fn load_migrations_empty_when_missing() {
    assert!(Store::new("data".into()).migrations.is_empty());
    assert!(MigrationFiles::default().load().migrations.is_empty());
    assert!(Store::load_migrations(MigrationsFile::Missing, None).unwrap().is_empty());
}

#[test]
fn damaged_tables_are_not_taken_for_empty_ones() {
    let e = Store::load_migrations(MigrationsFile::Corrupt("line 1".into()), None).unwrap_err();
    assert_eq!(e.describe(), "序列化错误: line 1");
    let fault = IoFault { code: Some(5), message: "denied".into() };
    let e = Store::load_migrations(MigrationsFile::Failed(fault.clone()), None).unwrap_err();
    assert_eq!(e.describe(), "IO 错误: denied");
    let table = Store::load_migrations(MigrationsFile::Parsed(vec![sample("u1")]), None).unwrap();
    assert_eq!(table[0].id, "u1");
    let e = Store::load_config(ConfigFile::Failed(fault), None).unwrap_err();
    assert!(matches!(e, AppError::Io(_)));
}

#[test]
fn the_backup_stands_in_for_a_damaged_table() {
    let backup = || Some(vec![sample("u7")]);
    let table = Store::load_migrations(MigrationsFile::Corrupt("x".into()), backup()).unwrap();
    assert_eq!(table[0].id, "u7");
    let table = Store::load_migrations(MigrationsFile::Missing, backup()).unwrap();
    assert_eq!(table[0].id, "u7");
    let table = Store::load_migrations(MigrationsFile::Parsed(vec![]), backup()).unwrap();
    assert!(table.is_empty());
    let fault = IoFault { code: Some(5), message: "denied".into() };
    assert!(Store::load_migrations(MigrationsFile::Failed(fault), backup()).is_err());
}

#[test]
fn upsert_replaces_the_record_with_the_same_id() {
    let mut s = Store::new("data".into());
    s.upsert_migration(sample("u1"));
    s.upsert_migration(sample("u2"));
    let mut changed = sample("u1");
    changed.status = MigrationStatus::OldPendingDelete;
    s.upsert_migration(changed);
    assert_eq!(s.migrations.len(), 2);
    assert_eq!(s.find_migration("u1").unwrap().status, MigrationStatus::OldPendingDelete);
    assert_eq!(s.find_migration("u2").unwrap().status, MigrationStatus::Active);
    s.remove_migration("u1");
    assert!(s.find_migration("u1").is_none());
    assert_eq!(s.migrations.len(), 1);
    s.remove_migration("u9");
    assert_eq!(s.migrations.len(), 1);
}

#[test]
fn files_lie_in_the_data_directory() {
    let s = Store::new("C:\\data".into());
    let names = [
        (s.config_path(), "config.json"),
        (s.config_tmp(), "config.json.tmp"),
        (s.config_bak(), "config.json.bak"),
        (s.mig_path(), "migrations.json"),
        (s.mig_tmp(), "migrations.json.tmp"),
        (s.mig_bak(), "migrations.json.bak"),
    ];
    for (path, name) in names {
        assert!(path.starts_with("C:\\data"), "{path}");
        assert!(path.ends_with(name), "{path}");
    }
}
