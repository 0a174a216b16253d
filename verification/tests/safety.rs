use dayu_disk_manager::error::AppError;
use dayu_disk_manager::models::{Config, Migration, MigrationStatus};
use dayu_disk_manager::paths::{matches_preset, EnvVars};
use dayu_disk_manager::safety::{
    is_descendant, migration_conflict, needs_running, precheck, safety_margin, SystemProbe,
};
use dayu_disk_manager::store::default_config;

struct Mock {
    free: u64,
    ntfs: bool,
    serial: String,
    locked: Option<Vec<String>>,
    running: Vec<String>,
}

impl SystemProbe for Mock {
    fn volume_info(&self, _p: &str) -> Result<(String, bool), AppError> {
        Ok((self.serial.clone(), self.ntfs))
    }

    fn disk_free(&self, _p: &str) -> Result<u64, AppError> {
        Ok(self.free)
    }

    fn locked_processes(&self, _p: &str) -> Result<Option<Vec<String>>, AppError> {
        Ok(self.locked.clone())
    }

    fn running_processes(&self) -> Result<Vec<String>, AppError> {
        Ok(self.running.clone())
    }
}

fn env() -> EnvVars {
    EnvVars {
        userprofile: Some("C:\\Users\\x".into()),
        localappdata: Some("C:\\Users\\x\\AppData\\Local".into()),
        appdata: Some("C:\\Users\\x\\AppData\\Roaming".into()),
    }
}

fn cfg_repo(repo: &str) -> Config {
    let mut c = default_config();
    c.repository = repo.into();
    c
}

fn migration(source: &str, status: MigrationStatus) -> Migration {
    Migration {
        id: "u1".into(),
        schema_version: 1,
        source: source.into(),
        target: "D:/Migrated/c/u1/data".into(),
        old_path: String::new(),
        preset: None,
        created_at: "2026-07-18T00:00:00Z".into(),
        status,
        source_volume_serial: "C".into(),
        target_volume_serial: "D".into(),
        recycle_bin_ref: String::new(),
        pending_cleanup: None,
    }
}

#[test]
fn passes_when_space_and_ntfs_ok() {
    let probe = Mock {
        free: 10_000_000_000,
        ntfs: true,
        serial: "DDDD".into(),
        locked: None,
        running: vec![],
    };
    let report = precheck(
        "C:/Users/x/Data",
        &cfg_repo("D:/Migrated"),
        &[],
        1_000_000_000,
        &env(),
        &probe,
    );
    assert!(report.ok, "blockers: {:?}", report.blockers);
}

#[test]
fn blocks_when_space_insufficient() {
    let probe = Mock {
        free: 100_000,
        ntfs: true,
        serial: "DDDD".into(),
        locked: None,
        running: vec![],
    };
    let report = precheck(
        "C:/Users/x/Data",
        &cfg_repo("D:/Migrated"),
        &[],
        1_000_000_000,
        &env(),
        &probe,
    );
    assert!(!report.ok);
    assert!(report.blockers.iter().any(|b| b.contains("空间")));
}

#[test]
fn blocks_when_target_not_ntfs() {
    let probe = Mock {
        free: 10_000_000_000,
        ntfs: false,
        serial: "DDDD".into(),
        locked: None,
        running: vec![],
    };
    let report = precheck(
        "C:/Users/x/Data",
        &cfg_repo("D:/Migrated"),
        &[],
        1_000_000_000,
        &env(),
        &probe,
    );
    assert!(!report.ok);
    assert!(report.blockers.iter().any(|b| b.contains("NTFS")));
}

#[test]
fn blocks_when_repo_on_c_drive() {
    let probe = Mock {
        free: 10_000_000_000,
        ntfs: true,
        serial: "CCCC".into(),
        locked: None,
        running: vec![],
    };
    let report = precheck(
        "C:/Users/x/Data",
        &cfg_repo("C:/Migrated"),
        &[],
        1_000_000_000,
        &env(),
        &probe,
    );
    assert!(!report.ok);
    assert!(report
        .blockers
        .iter()
        .any(|b| b.contains("C 盘") || b.contains("系统盘")));
}

#[test]
fn blocks_system_critical_path() {
    let probe = Mock {
        free: 10_000_000_000,
        ntfs: true,
        serial: "CCCC".into(),
        locked: None,
        running: vec![],
    };
    let report = precheck(
        "C:/Windows/System32",
        &cfg_repo("D:/Migrated"),
        &[],
        1_000,
        &env(),
        &probe,
    );
    assert!(!report.ok);
    assert!(report
        .blockers
        .iter()
        .any(|b| b.contains("系统") || b.contains("黑名单")));
}

#[test]
fn warns_when_source_locked() {
    let probe = Mock {
        free: 10_000_000_000,
        ntfs: true,
        serial: "CCCC".into(),
        locked: Some(vec!["wechat.exe".into()]),
        running: vec![],
    };
    let report = precheck(
        "C:/Users/x/Data",
        &cfg_repo("D:/Migrated"),
        &[],
        1_000_000,
        &env(),
        &probe,
    );
    assert!(
        report.warnings.iter().any(|w| w.contains("wechat")),
        "warnings: {:?}",
        report.warnings
    );
}
#[test]
fn warns_when_preset_process_running() {
    let cfg = default_config();
    let wechat = cfg.presets.iter().find(|p| p.id == "wechat").unwrap();
    let userprofile = env().userprofile.unwrap();
    let wechat_path = format!("{userprofile}\\Documents\\WeChat Files");
    assert!(
        matches_preset(&wechat_path, wechat, &env())
    );

    let probe = Mock {
        free: 10_000_000_000,
        ntfs: true,
        serial: "CCCC".into(),
        locked: None,
        running: vec!["wechat".into()],
    };
    let mut cfg = cfg;
    cfg.repository = "D:/Migrated".into();
    let report = precheck(&wechat_path, &cfg, &[], 1_000_000, &env(), &probe);
    assert!(report.ok, "{:?}", report.blockers);
    assert!(
        report
            .warnings
            .iter()
            .any(|w| w.contains("微信文件") && w.contains("wechat")),
        "warnings: {:?}",
        report.warnings
    );
}
#[test]
fn does_not_warn_when_preset_process_not_running() {
    let cfg = default_config();
    let userprofile = env().userprofile.unwrap();
    let wechat_path = format!("{userprofile}\\Documents\\WeChat Files");

    let probe = Mock {
        free: 10_000_000_000,
        ntfs: true,
        serial: "CCCC".into(),
        locked: None,
        running: vec!["explorer".into(), "chrome".into()],
    };
    let mut cfg = cfg;
    cfg.repository = "D:/Migrated".into();
    let report = precheck(&wechat_path, &cfg, &[], 1_000_000, &env(), &probe);
    assert!(report.warnings.iter().all(|w| !w.contains("微信文件")));
}

#[test]
fn blocks_duplicate_active_migration() {
    let existing = vec![migration("C:/Users/x/Data", MigrationStatus::Active)];
    let probe = Mock {
        free: 10_000_000_000,
        ntfs: true,
        serial: "C".into(),
        locked: None,
        running: vec![],
    };
    let report = precheck(
        "C:/Users/x/Data",
        &cfg_repo("D:/Migrated"),
        &existing,
        1_000,
        &env(),
        &probe,
    );
    assert!(!report.ok);
    assert!(report
        .blockers
        .iter()
        .any(|b| b.contains("已迁移") || b.contains("重复")));
}

#[test]
fn blocks_parent_that_contains_a_migrated_directory() {
    let existing = vec![migration(
        "C:/Users/x/AppData/Local/Cache",
        MigrationStatus::Active,
    )];

    let conflict = migration_conflict("C:\\Users\\x\\AppData", &existing);

    assert!(conflict
        .as_deref()
        .is_some_and(|message| message.contains("包含已迁移的子目录")));
}

#[test]
fn blocks_pending_migration_but_not_restored_cleanup_record() {
    let pending = vec![migration(
        "C:/Users/x/Data",
        MigrationStatus::PendingManualConfirm,
    )];
    let restored = vec![migration(
        "C:/Users/x/Data",
        MigrationStatus::TargetPendingDelete,
    )];

    assert!(migration_conflict("C:/Users/x/Data", &pending).is_some());
    assert!(migration_conflict("C:/Users/x/Data", &restored).is_none());
}

fn roomy() -> Mock {
    Mock { free: u64::MAX, ntfs: true, serial: "D".into(), locked: None, running: vec![] }
}

#[test]
fn blocks_repository_inside_the_source() {
    let report =
        precheck("D:/Data", &cfg_repo("D:/Data/Migrated"), &[], 1_000, &env(), &roomy());
    assert!(!report.ok);
}

#[test]
fn blocks_network_repository() {
    for repo in ["\\\\server\\share", "//server/share"] {
        let report = precheck("C:/Users/x/Data", &cfg_repo(repo), &[], 1_000, &env(), &roomy());
        assert!(!report.ok, "{repo}");
    }
}

struct Silent;

impl SystemProbe for Silent {
    fn volume_info(&self, _p: &str) -> Result<(String, bool), AppError> {
        Err(AppError::Win32("volume".into()))
    }

    fn disk_free(&self, _p: &str) -> Result<u64, AppError> {
        Err(AppError::Win32("free".into()))
    }

    fn locked_processes(&self, _p: &str) -> Result<Option<Vec<String>>, AppError> {
        Err(AppError::Win32("locked".into()))
    }

    fn running_processes(&self) -> Result<Vec<String>, AppError> {
        Err(AppError::Win32("running".into()))
    }
}

#[test]
fn blocks_when_the_system_does_not_answer() {
    let report = precheck("C:/Users/x/Data", &cfg_repo("D:/Migrated"), &[], 1, &env(), &Silent);
    assert!(!report.ok);
    assert_eq!(report.target_free_bytes, 0);
    assert_eq!(report.source_size_bytes, 1);
}

#[test]
fn the_margin_grows_with_the_source() {
    assert!(safety_margin(100_000_000_000) >= safety_margin(1_000));
    let need = 1_000_000_000 + safety_margin(1_000_000_000);
    let mut probe = roomy();
    probe.free = need;
    let cfg = cfg_repo("D:/Migrated");
    assert!(precheck("C:/Users/x/Data", &cfg, &[], 1_000_000_000, &env(), &probe).ok);
    probe.free = need - 1;
    assert!(!precheck("C:/Users/x/Data", &cfg, &[], 1_000_000_000, &env(), &probe).ok);
}

#[test]
fn descendants_end_at_a_separator() {
    assert!(is_descendant("c:\\a\\b", "c:\\a"));
    assert!(!is_descendant("c:\\ab", "c:\\a"));
    assert!(!is_descendant("c:\\a", "c:\\a"));
}

#[test]
fn children_of_migrated_directories_are_blocked() {
    let existing = vec![migration("C:/Users/x/Data", MigrationStatus::Active)];
    assert!(migration_conflict("c:\\users\\X\\data\\sub", &existing).is_some());
    assert!(migration_conflict("C:/Users/x/Data2", &existing).is_none());
}

#[test]
fn running_processes_matter_only_to_presets() {
    let cfg = default_config();
    assert!(needs_running("C:\\Users\\x\\Documents\\WeChat Files", &cfg, &env()));
    assert!(!needs_running("C:\\Elsewhere", &cfg, &env()));
}
