use dayu_disk_manager::app_state::AppState;
use dayu_disk_manager::commands::{
    apply_outcome, begin_scan, begin_task, cancel_migrate, cancel_scan, end_scan, end_task,
    expand_node, history_range, invalidate_scan_tree, list_recommended, plan_migration,
    propagate_migrator_error, require_migration, restart_elevated, reveal_node, scan_drive,
    take_startup_scan_intent, target_path,
};
use dayu_disk_manager::error::AppError;
use dayu_disk_manager::history::History;
use dayu_disk_manager::journal::Journal;
use dayu_disk_manager::models::{
    AccessState, Config, FastScanFailure, Migration, MigrationStatus, OperationOutcome,
    RootFileSummary, ScanDiagnostics, ScanDriveResult, ScanInvalidatedEvent, ScanMode, ScanSource,
    TreeNode,
};
use dayu_disk_manager::pathmap::PathMap;
use dayu_disk_manager::scanner::{ScanDriveError, ScanEngine, ScanOutcome, TreeStore};
use dayu_disk_manager::store::{default_config, Store};
use dayu_disk_manager::win32::ElevationOutcome;
use std::cell::{Cell, RefCell};

struct MockScanEngine {
    result: RefCell<Option<Result<ScanOutcome, ScanDriveError>>>,
}

impl MockScanEngine {
    fn with(result: Result<ScanOutcome, ScanDriveError>) -> Self {
        Self { result: RefCell::new(Some(result)) }
    }

    fn success(store: TreeStore, diagnostics: ScanDiagnostics) -> Self {
        Self::with(Ok(ScanOutcome { store, diagnostics }))
    }

    fn needs_elevation() -> Self {
        Self::with(Err(ScanDriveError::NeedsElevation))
    }

    fn fast_scan_failure(f: FastScanFailure) -> Self {
        Self::with(Err(ScanDriveError::FastScanFailure(f)))
    }

    fn cancelled() -> Self {
        Self::with(Err(ScanDriveError::Cancelled))
    }
}

impl ScanEngine for MockScanEngine {
    fn run(
        &self,
        _mode: ScanMode,
        _root_drive: char,
        _cfg: &Config,
        _migrations: &Vec<Migration>,
        _excluded_paths: &Vec<String>,
    ) -> Result<ScanOutcome, ScanDriveError> {
        self.result.borrow_mut().take().expect("a result is handed out once")
    }
}

fn synthetic_store(scan_id: &str, source: ScanSource) -> TreeStore {
    let summary = RootFileSummary {
        direct_file_size_bytes: 0,
        direct_file_count: 0,
        system_metadata_size_bytes: None,
        total_known_size_bytes: 0,
        incomplete: false,
    };
    TreeStore::from_parts(
        scan_id.into(),
        source,
        summary,
        PathMap::new(),
        PathMap::new(),
        PathMap::new(),
        Vec::new(),
        0,
        Vec::new(),
    )
}

fn empty_store(scan_id: &str) -> TreeStore {
    synthetic_store(scan_id, ScanSource::Mft)
}

fn fresh_state() -> AppState {
    AppState::new(Store::new("data".into()), Journal::new(), History::new())
}

fn current_id(state: &AppState) -> Option<String> {
    state.current_scan.as_ref().map(|s| s.scan_id().to_string())
}

fn scan(state: &mut AppState, engine: &MockScanEngine) -> Result<ScanDriveResult, AppError> {
    scan_drive(state, engine, ScanMode::Auto, &default_config(), &Vec::new())
}

#[test]
fn needs_elevation_returns_before_lock_released() {
    let mut state = fresh_state();
    let result = scan(&mut state, &MockScanEngine::needs_elevation()).unwrap();
    assert!(matches!(result, ScanDriveResult::NeedsElevation));
    assert!(state.scan_task.is_none());
}

#[test]
fn fast_scan_failure_preserves_old_snapshot() {
    let mut state = fresh_state();
    let engine = MockScanEngine::fast_scan_failure(FastScanFailure::UnsupportedFilesystem {
        actual: "fat32".into(),
    });
    state.current_scan = Some(empty_store("old"));

    let result = scan(&mut state, &engine).unwrap();

    assert!(matches!(
        result,
        ScanDriveResult::FastScanUnavailable { reason: FastScanFailure::UnsupportedFilesystem { .. } }
    ));
    assert_eq!(current_id(&state), Some("old".to_string()));
    assert!(state.scan_task.is_none());
}

#[test]
fn cancelled_preserves_old_snapshot() {
    let mut state = fresh_state();
    state.current_scan = Some(empty_store("old"));

    let result = scan(&mut state, &MockScanEngine::cancelled());

    assert!(matches!(result, Err(AppError::Cancelled)));
    assert_eq!(current_id(&state), Some("old".to_string()));
}

#[test]
fn success_atomically_replaces_snapshot() {
    let diagnostics = ScanDiagnostics {
        scanned_records: 1,
        scanned_dirs: 2,
        scanned_files: 3,
        skipped_records: 0,
        orphan_entries: 0,
        hard_link_entries: 0,
    };
    let mut state = fresh_state();
    let engine = MockScanEngine::success(empty_store("new"), diagnostics);
    state.current_scan = Some(empty_store("old"));

    let result = scan(&mut state, &engine).unwrap();

    match result {
        ScanDriveResult::Complete { snapshot } => {
            assert_eq!(snapshot.scan_id, "new");
            assert_eq!(snapshot.diagnostics.scanned_records, 1);
        }
        _ => panic!("the scan is complete"),
    }
    assert_eq!(current_id(&state), Some("new".to_string()));
}

#[test]
fn stale_scan_on_id_mismatch() {
    let mut state = fresh_state();
    state.current_scan = Some(empty_store("a"));

    let result = expand_node(&state, "b", "C:\\", 0, 10);
    assert!(matches!(result, Err(AppError::StaleScan)));
}

#[test]
fn stale_scan_on_empty() {
    let state = fresh_state();
    let result = expand_node(&state, "x", "C:\\", 0, 10);
    assert!(matches!(result, Err(AppError::StaleScan)));
}

fn node(path: &str, name: &str, size: u64, depth: u32, child_count: u32) -> TreeNode {
    TreeNode {
        path: path.into(),
        display_name: name.into(),
        size_bytes: size,
        linked_target_size_bytes: None,
        file_count: 0,
        dir_count: 1,
        depth,
        is_reparse: false,
        reparse_tag: None,
        is_junction: false,
        access_state: AccessState::Unknown,
        matched_preset: None,
        category: None,
        auto_migrate: false,
        scan_status: None,
        migration_id: None,
        child_count,
        filtered_child_count: 0,
    }
}

fn no_summary() -> RootFileSummary {
    RootFileSummary {
        direct_file_size_bytes: 0,
        direct_file_count: 0,
        system_metadata_size_bytes: None,
        total_known_size_bytes: 0,
        incomplete: false,
    }
}

fn sample_store() -> TreeStore {
    let mut nodes = PathMap::new();
    nodes.insert(r"c:\a".into(), node(r"C:\A", "A", 100, 1, 1));
    nodes.insert(r"c:\a\b".into(), node(r"C:\A\B", "B", 50, 2, 0));
    let mut children = PathMap::new();
    children.insert(r"c:\".into(), vec![r"c:\a".into()]);
    children.insert(r"c:\a".into(), vec![r"c:\a\b".into()]);
    let mut parent = PathMap::new();
    parent.insert(r"c:\a".into(), r"c:\".into());
    parent.insert(r"c:\a\b".into(), r"c:\a".into());
    TreeStore::from_parts(
        "sample".into(),
        ScanSource::Mft,
        no_summary(),
        nodes,
        children,
        parent,
        vec![r"c:\a".into()],
        0,
        Vec::new(),
    )
}

fn state_with(store: TreeStore) -> AppState {
    let mut state = fresh_state();
    state.current_scan = Some(store);
    state
}

#[test]
fn expand_node_returns_child_page() {
    let state = state_with(sample_store());
    let page = expand_node(&state, "sample", r"C:\A", 0, 10).unwrap();
    assert_eq!(page.total, 1);
    assert_eq!(page.items[0].path, r"C:\A\B");
}

#[test]
fn reveal_node_returns_chain() {
    let state = state_with(sample_store());
    let levels = reveal_node(&state, "sample", r"C:\A\B", 10).unwrap();
    assert_eq!(levels.len(), 2);
    assert!(levels.iter().any(|l| l.parent_path == r"c:\"));
    assert!(levels.iter().any(|l| l.parent_path == r"C:\A"));
}

#[test]
fn list_recommended_returns_nodes() {
    let mut nodes = PathMap::new();
    let mut a = node(r"C:\A", "A", 100, 1, 0);
    a.matched_preset = Some("p1".into());
    nodes.insert(r"c:\a".into(), a);
    let store_with_rec = TreeStore::from_parts(
        "rec".into(),
        ScanSource::Mft,
        no_summary(),
        nodes,
        PathMap::new(),
        PathMap::new(),
        vec![r"c:\a".into()],
        0,
        vec![r"c:\a".into()],
    );
    let state = state_with(store_with_rec);

    let nodes = list_recommended(&state, "rec").unwrap();
    assert_eq!(nodes.len(), 1);
    assert_eq!(nodes[0].path, r"C:\A");
}

#[test]
fn cancel_scan_returns_false_when_idle() {
    let mut state = fresh_state();
    assert!(!cancel_scan(&mut state));
}

#[test]
fn read_commands_dont_hold_scan_lock() {
    let state = state_with(sample_store());

    let _ = expand_node(&state, "sample", r"C:\A", 0, 10).unwrap();
    let _ = reveal_node(&state, "sample", r"C:\A\B", 10).unwrap();
    let _ = list_recommended(&state, "sample").unwrap();

    assert!(state.scan_task.is_none());
}

fn state_with_intent(intent: Option<bool>) -> AppState {
    let mut state = fresh_state();
    state.startup_scan_intent = intent;
    state
}

#[test]
fn take_startup_scan_intent_one_shot_true() {
    let mut state = state_with_intent(Some(true));
    assert!(take_startup_scan_intent(&mut state));
    assert!(!take_startup_scan_intent(&mut state));
    assert!(!take_startup_scan_intent(&mut state));
}

#[test]
fn take_startup_scan_intent_false_on_normal_start() {
    let mut state = state_with_intent(Some(false));
    assert!(!take_startup_scan_intent(&mut state));
}

#[test]
fn take_startup_scan_intent_false_when_none() {
    let mut state = state_with_intent(None);
    assert!(!take_startup_scan_intent(&mut state));
}

#[test]
fn restart_elevated_returns_true_on_launched() {
    let result = restart_elevated(Ok(ElevationOutcome::Launched));
    assert!(result.unwrap());
}

#[test]
fn restart_elevated_returns_err_on_cancelled() {
    let result = restart_elevated(Ok(ElevationOutcome::Cancelled));
    let err = result.unwrap_err().describe();
    assert!(err.contains("取消"), "{}", err);
}

#[test]
fn restart_elevated_returns_err_on_failed() {
    let result = restart_elevated(Ok(ElevationOutcome::Failed { code: 5 }));
    let err = result.unwrap_err().describe();
    assert!(err.contains("code=5"), "{}", err);
}

#[test]
fn restart_elevated_never_exits_process() {
    let called = Cell::new(false);
    let ask = || {
        called.set(true);
        Ok(ElevationOutcome::Launched)
    };
    let result = restart_elevated(ask());
    assert!(called.get());
    assert!(result.unwrap());
}

#[test]
fn restart_elevated_passes_other_errors_on() {
    let err = restart_elevated(Err("拒绝访问".into())).unwrap_err();
    assert_eq!(err.describe(), "Win32 错误: 拒绝访问");
}

fn emitted(event: ScanInvalidatedEvent) -> (String, bool) {
    (event.reason, event.auto_rescan)
}

#[test]
fn invalidate_clears_published_mft_store_and_auto_rescans() {
    let mut state = state_with(synthetic_store("old", ScanSource::Mft));
    let event = invalidate_scan_tree(&mut state, &OperationOutcome::changed("migrated"));
    assert!(state.current_scan.is_none());
    assert_eq!(emitted(event), ("migrated".to_string(), true));
}

#[test]
fn invalidate_filesystem_store_no_auto_rescan() {
    let mut state = state_with(synthetic_store("old", ScanSource::Filesystem));
    let event = invalidate_scan_tree(&mut state, &OperationOutcome::changed("migrated"));
    assert!(state.current_scan.is_none());
    assert_eq!(emitted(event), ("migrated".to_string(), false));
}

#[test]
fn invalidate_when_no_store_no_auto_rescan() {
    let mut state = fresh_state();
    assert!(state.current_scan.is_none());
    let event = invalidate_scan_tree(&mut state, &OperationOutcome::changed("migrated"));
    assert_eq!(emitted(event), ("migrated".to_string(), false));
}

#[test]
fn invalidate_clears_before_emit_failure() {
    let mut state = state_with(synthetic_store("old", ScanSource::Mft));
    let event = invalidate_scan_tree(&mut state, &OperationOutcome::changed("migrated"));
    let called = Cell::new(false);
    let emit = |_: ScanInvalidatedEvent| -> Result<(), ()> {
        called.set(true);
        Err(())
    };
    let _ = emit(event);
    assert!(state.current_scan.is_none());
    assert!(called.get());
}

fn invalidates(outcome: &OperationOutcome) -> bool {
    let mut state = state_with(synthetic_store("old", ScanSource::Mft));
    let event = apply_outcome(&mut state, outcome);
    assert_eq!(event.is_some(), state.current_scan.is_none());
    event.is_some()
}

#[test]
fn start_migrate_success_invalidates_tree() {
    let outcome = OperationOutcome::changed("migrated");
    assert!(invalidates(&outcome));
    assert_eq!(outcome.reason, "migrated");
}

#[test]
fn start_migrate_rolled_back_failure_does_not_invalidate() {
    let outcome = OperationOutcome::unchanged("migrate_rolled_back");
    assert!(!invalidates(&outcome));
    assert_eq!(outcome.reason, "migrate_rolled_back");
}

#[test]
fn start_migrate_partial_failure_source_changed_invalidates() {
    let outcome = OperationOutcome::changed("migrate_partial");
    assert!(invalidates(&outcome));
    assert_eq!(outcome.reason, "migrate_partial");
}

#[test]
fn start_restore_success_invalidates() {
    assert!(invalidates(&OperationOutcome::changed("restored")));
}

#[test]
fn break_link_success_invalidates() {
    assert!(invalidates(&OperationOutcome::changed("broken_link")));
}

#[test]
fn break_link_failure_does_not_invalidate() {
    assert!(!invalidates(&OperationOutcome::unchanged("break_link_rolled_back")));
}

#[test]
fn failed_operations_report_their_error() {
    let mut state = state_with(synthetic_store("old", ScanSource::Mft));
    let (e, event) = propagate_migrator_error(
        &mut state,
        (AppError::Migrate("x".into()), OperationOutcome::unchanged("migrate_rolled_back")),
    );
    assert_eq!(e.describe(), "迁移失败: x");
    assert!(event.is_none());
    assert!(state.current_scan.is_some());
    let (e, event) = propagate_migrator_error(
        &mut state,
        (AppError::Cancelled, OperationOutcome::changed("migrate_partial")),
    );
    assert!(matches!(e, AppError::Cancelled));
    assert_eq!(emitted(event.unwrap()), ("migrate_partial".to_string(), true));
    assert!(state.current_scan.is_none());
}

#[test]
fn one_scan_runs_at_a_time() {
    let mut state = fresh_state();
    begin_scan(&mut state).unwrap();
    let err = scan(&mut state, &MockScanEngine::needs_elevation()).unwrap_err();
    assert_eq!(err.describe(), "任务冲突: 扫描任务已在运行");
    assert!(cancel_scan(&mut state));
    assert_eq!(state.scan_task, Some(true));
    let r = end_scan(&mut state, Err(ScanDriveError::Cancelled));
    assert!(matches!(r, Err(AppError::Cancelled)));
    assert!(state.scan_task.is_none());
    begin_scan(&mut state).unwrap();
}

#[test]
fn one_task_runs_at_a_time() {
    let mut state = fresh_state();
    assert!(!cancel_migrate(&mut state));
    begin_task(&mut state).unwrap();
    let err = begin_task(&mut state).unwrap_err();
    assert_eq!(err.describe(), "任务冲突: 已有迁移或还原任务正在运行");
    assert!(cancel_migrate(&mut state));
    assert_eq!(state.task, Some(true));
    end_task(&mut state);
    begin_task(&mut state).unwrap();
}

fn migration(id: &str, source: &str) -> Migration {
    Migration {
        id: id.into(),
        schema_version: 1,
        source: source.into(),
        target: "D:/Migrated/c/u1/data".into(),
        old_path: String::new(),
        preset: None,
        created_at: "2026-07-18T00:00:00Z".into(),
        status: MigrationStatus::Active,
        source_volume_serial: "C".into(),
        target_volume_serial: "D".into(),
        recycle_bin_ref: String::new(),
        pending_cleanup: None,
    }
}

#[test]
fn migrations_are_planned_inside_the_repository() {
    let mut cfg = default_config();
    cfg.repository = "D:/Migrated//".into();
    let plan = plan_migration(
        "u7",
        "C:/Users/x/Data",
        &Some("wechat".into()),
        &cfg,
        &[],
        "AAAA".into(),
        "BBBB".into(),
        true,
    )
    .unwrap();
    let subdir = cfg.presets.iter().find(|p| p.id == "wechat").unwrap().target_subdir.clone();
    assert_eq!(plan.task_id, "task-u7");
    assert_eq!(plan.target, format!("D:/Migrated/{subdir}/u7/data"));
    assert_eq!(plan.tmp, format!("D:/Migrated/{subdir}/u7/data.tmp"));
    assert_eq!(plan.old_path, "C:\\Users\\x\\Data.dayu-old-task-u7");
    assert_eq!(plan.preset_id.as_deref(), Some("wechat"));
    assert!(plan.enable_vss);
    assert!(plan.copy_concurrency.is_none());
    assert_eq!(target_path(&cfg, &None, "u8"), "D:/Migrated/custom/u8/data");
    assert_eq!(target_path(&cfg, &Some("unknown".into()), "u8"), "D:/Migrated/custom/u8/data");
}

#[test]
fn overlapping_migrations_are_refused() {
    let existing = vec![migration("u1", "C:\\Users\\x\\Data")];
    let r = plan_migration(
        "u2",
        "C:/Users/x/Data/sub",
        &None,
        &default_config(),
        &existing,
        String::new(),
        String::new(),
        false,
    );
    assert!(matches!(r, Err(AppError::Conflict(_))));
}

#[test]
fn only_recorded_migrations_can_be_restored() {
    let mut state = fresh_state();
    assert_eq!(
        require_migration(&state, "u1").unwrap_err().describe(),
        "store 错误: 迁移记录不存在"
    );
    state.store.upsert_migration(migration("u1", "C:/a"));
    assert_eq!(require_migration(&state, "u1").unwrap().source, "C:/a");
}

#[test]
fn a_time_range_has_two_ends() {
    assert_eq!(history_range(Some("a"), Some("b")), Some(("a", "b")));
    assert_eq!(history_range(Some("a"), None), None);
    assert_eq!(history_range(None, Some("b")), None);
}
