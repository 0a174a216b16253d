//! What the user's commands do to the state of the application.

use crate::app_state::AppState;
use crate::error::{prefixed_text, AppError};
use crate::migrator::MigratePlan;
use crate::models::{
    copy_opt, migrations_view, opt_view, tree_nodes_view, ChildPage, Config, ConfigView, Migration,
    MigrationView, OperationOutcome, PresetView, RevealLevel, ScanDriveResult,
    ScanInvalidatedEvent, ScanMode, ScanSnapshot, ScanSource, TreeNode,
};
use crate::safety::{first_conflict, migration_conflict};
use crate::scanner::engine::{ScanDriveError, ScanEngine, ScanOutcome};
use crate::scanner::tree::{
    children_page_of, ends_after, filed_nodes, levels_of, levels_view, way_down, TreeStore,
    TreeStoreView,
};
use crate::paths::normalized;
use crate::store::first_with_id;
use crate::text::{decimal, push_decimal, replace_char, replaced_char, str_eq, trim_end, trimmed_end};
use crate::win32::ElevationOutcome;
use vstd::prelude::*;
use vstd::string::*;

verus! {

// ---------------------------------------------------------------------------
// Scans
// ---------------------------------------------------------------------------

/// The states agree in everything that a scan does not touch.
pub open spec fn same_but_scan(a: AppState, b: AppState) -> bool {
    a.store == b.store && a.journal == b.journal && a.history == b.history && a.task == b.task
        && a.startup_scan_intent == b.startup_scan_intent
}

/// Begins a scan, unless one is running.
pub fn begin_scan(state: &mut AppState) -> (r: Result<(), AppError>)
    ensures
        match r {
            Ok(()) => old(state).scan_task is None && *final(state) == (AppState {
                scan_task: Some(false),
                ..*old(state)
            }),
            Err(e) => {
                &&& old(state).scan_task is Some
                &&& *final(state) == *old(state)
                &&& e matches AppError::Conflict(m) && m@ == "扫描任务已在运行"@
            },
        },
{
    if state.scan_task.is_some() {
        return Err(AppError::Conflict(String::from_str("扫描任务已在运行")));
    }
    state.scan_task = Some(false);
    Ok(())
}

/// The first view of a finished scan.
pub open spec fn is_snapshot(s: ScanSnapshot, store: TreeStoreView) -> bool {
    &&& s.scan_id@ == store.scan_id
    &&& s.source == store.source
    &&& tree_nodes_view(s.roots@) == filed_nodes(store.nodes, store.roots, store.roots.len())
    &&& s.filtered_root_count == store.filtered_root_count
    &&& s.root_file_summary == store.root_file_summary
}

/// How a scan with the given result leaves the state, and what is reported:
/// the new tree takes the place of the old one; without a new tree the old
/// one stays.
pub open spec fn scan_ends(
    before: AppState,
    after: AppState,
    result: Result<ScanOutcome, ScanDriveError>,
    r: Result<ScanDriveResult, AppError>,
) -> bool {
    &&& after.scan_task is None
    &&& same_but_scan(after, before)
    &&& match result {
        Ok(outcome) => {
            &&& after.current_scan == Some(outcome.store)
            &&& r matches Ok(ScanDriveResult::Complete { snapshot }) && is_snapshot(
                snapshot,
                outcome.store@,
            ) && snapshot.diagnostics == outcome.diagnostics
        },
        Err(e) => {
            &&& after.current_scan == before.current_scan
            &&& match e {
                ScanDriveError::NeedsElevation => r is Ok && r->Ok_0
                    == ScanDriveResult::NeedsElevation,
                ScanDriveError::FastScanFailure(f) => r is Ok && r->Ok_0
                    == (ScanDriveResult::FastScanUnavailable { reason: f }),
                ScanDriveError::Cancelled => r is Err && r->Err_0 is Cancelled,
            }
        },
    }
}

/// Ends a scan.
pub fn end_scan(state: &mut AppState, result: Result<ScanOutcome, ScanDriveError>) -> (r: Result<
    ScanDriveResult,
    AppError,
>)
    requires
        old(state).wf(),
        result is Ok ==> result->Ok_0.store.wf(),
    ensures
        final(state).wf(),
        scan_ends(*old(state), *final(state), result, r),
{
    state.scan_task = None;
    match result {
        Ok(outcome) => {
            let store: TreeStore = outcome.store;
            let snapshot = ScanSnapshot {
                scan_id: String::from_str(store.scan_id()),
                source: store.source(),
                roots: store.roots(),
                filtered_root_count: store.filtered_root_count(),
                root_file_summary: *store.root_file_summary(),
                diagnostics: outcome.diagnostics,
            };
            state.current_scan = Some(store);
            Ok(ScanDriveResult::Complete { snapshot })
        },
        Err(ScanDriveError::NeedsElevation) => Ok(ScanDriveResult::NeedsElevation),
        Err(ScanDriveError::FastScanFailure(f)) => Ok(
            ScanDriveResult::FastScanUnavailable { reason: f },
        ),
        Err(ScanDriveError::Cancelled) => Err(AppError::Cancelled),
    }
}

/// Scans drive C.
pub fn scan_drive<E: ScanEngine + ?Sized>(
    state: &mut AppState,
    engine: &E,
    mode: ScanMode,
    cfg: &Config,
    migrations: &Vec<Migration>,
) -> (r: Result<ScanDriveResult, AppError>)
    requires
        old(state).wf(),
    ensures
        final(state).wf(),
        old(state).scan_task is Some ==> *final(state) == *old(state) && (
        r matches Err(AppError::Conflict(m)) && m@ == "扫描任务已在运行"@),
        old(state).scan_task is None ==> exists|result: Result<ScanOutcome, ScanDriveError>|
            {
                &&& #[trigger] call_ensures(
                    E::run,
                    (engine, mode, 'C', cfg, migrations, &cfg.scan.exclude_paths),
                    result,
                )
                &&& scan_ends(*old(state), *final(state), result, r)
            },
{
    match begin_scan(state) {
        Ok(()) => {},
        Err(e) => {
            return Err(e);
        },
    }
    let result = engine.run(mode, 'C', cfg, migrations, &cfg.scan.exclude_paths);
    end_scan(state, result)
}

/// Asks the running scan to stop. Says whether there is one.
pub fn cancel_scan(state: &mut AppState) -> (r: bool)
    ensures
        r == old(state).scan_task is Some,
        *final(state) == (AppState {
            scan_task: if r {
                Some(true)
            } else {
                None
            },
            ..*old(state)
        }),
{
    if state.scan_task.is_some() {
        state.scan_task = Some(true);
        true
    } else {
        false
    }
}

/// The current tree, if it is the one that is asked about.
pub open spec fn is_current(state: AppState, scan_id: Seq<char>) -> bool {
    state.current_scan matches Some(s) && s@.scan_id == scan_id
}

/// The current tree, if it is the one that is asked about.
pub fn acquire_store<'a>(state: &'a AppState, scan_id: &str) -> (r: Result<&'a TreeStore, AppError>)
    requires
        state.wf(),
    ensures
        match r {
            Ok(s) => is_current(*state, scan_id@) && *s == state.current_scan->0 && s.wf(),
            Err(e) => !is_current(*state, scan_id@) && e is StaleScan,
        },
{
    match &state.current_scan {
        Some(s) => if str_eq(s.scan_id(), scan_id) {
            Ok(s)
        } else {
            Err(AppError::StaleScan)
        },
        None => Err(AppError::StaleScan),
    }
}

/// One page of the children of a directory.
pub fn expand_node(state: &AppState, scan_id: &str, path: &str, offset: u32, limit: u32) -> (r:
    Result<ChildPage, AppError>)
    requires
        state.wf(),
    ensures
        match r {
            Ok(page) => is_current(*state, scan_id@) && page@ == children_page_of(
                state.current_scan->0@,
                path@,
                offset,
                limit,
            ),
            Err(e) => !is_current(*state, scan_id@) && e is StaleScan,
        },
{
    match acquire_store(state, scan_id) {
        Ok(store) => Ok(store.children_page(path, offset, limit)),
        Err(e) => Err(e),
    }
}

/// The pages that lead down to a directory.
pub fn reveal_node(state: &AppState, scan_id: &str, path: &str, limit: u32) -> (r: Result<
    Vec<RevealLevel>,
    AppError,
>)
    requires
        state.wf(),
    ensures
        ({
            let s = state.current_scan->0@;
            let key = normalized(path@);
            match r {
                Ok(levels) => is_current(*state, scan_id@) && s.nodes.contains_key(key) && exists|
                    n: nat,
                | #[trigger]
                    ends_after(s, key, n) && levels_view(levels@) == levels_of(
                        s,
                        way_down(s, key, n),
                        limit,
                    ),
                Err(e) => if is_current(*state, scan_id@) {
                    e is Store && (s.nodes.contains_key(key) ==> forall|n: nat|
                        !ends_after(s, key, n))
                } else {
                    e is StaleScan
                },
            }
        }),
{
    match acquire_store(state, scan_id) {
        Ok(store) => store.reveal_pages(path, limit),
        Err(e) => Err(e),
    }
}

/// The directories that are worth migrating.
pub fn list_recommended(state: &AppState, scan_id: &str) -> (r: Result<Vec<TreeNode>, AppError>)
    requires
        state.wf(),
    ensures
        match r {
            Ok(nodes) => is_current(*state, scan_id@) && tree_nodes_view(nodes@) == filed_nodes(
                state.current_scan->0@.nodes,
                state.current_scan->0@.recommended,
                state.current_scan->0@.recommended.len(),
            ),
            Err(e) => !is_current(*state, scan_id@) && e is StaleScan,
        },
{
    match acquire_store(state, scan_id) {
        Ok(store) => Ok(store.recommended()),
        Err(e) => Err(e),
    }
}

/// There is a tree, and it came from the MFT.
pub open spec fn from_mft(state: AppState) -> bool {
    state.current_scan matches Some(s) && s@.source == ScanSource::Mft
}

/// Drops the tree, which no longer describes the drive. A tree that came from
/// the MFT is worth a new scan.
pub fn invalidate_scan_tree(state: &mut AppState, outcome: &OperationOutcome) -> (r:
    ScanInvalidatedEvent)
    ensures
        final(state).current_scan is None,
        *final(state) == (AppState { current_scan: None, ..*old(state) }),
        r.reason@ == outcome.reason@,
        r.auto_rescan == from_mft(*old(state)),
{
    let auto_rescan: bool = match &state.current_scan {
        Some(s) => s.source() == ScanSource::Mft,
        None => false,
    };
    state.current_scan = None;
    ScanInvalidatedEvent { reason: outcome.reason.clone(), auto_rescan }
}

/// Drops the tree exactly where the operation changed the source.
pub fn apply_outcome(state: &mut AppState, outcome: &OperationOutcome) -> (r: Option<
    ScanInvalidatedEvent,
>)
    ensures
        r is Some == outcome.source_changed,
        !outcome.source_changed ==> *final(state) == *old(state),
        outcome.source_changed ==> {
            &&& *final(state) == (AppState { current_scan: None, ..*old(state) })
            &&& r->0.reason@ == outcome.reason@
            &&& r->0.auto_rescan == from_mft(*old(state))
        },
{
    if outcome.source_changed {
        Some(invalidate_scan_tree(state, outcome))
    } else {
        None
    }
}

/// What is reported of a failed operation: its error. The tree is dropped
/// where the operation changed the source.
pub fn propagate_migrator_error(state: &mut AppState, err: (AppError, OperationOutcome)) -> (r: (
    AppError,
    Option<ScanInvalidatedEvent>,
))
    ensures
        r.0 == err.0,
        r.1 is Some == err.1.source_changed,
        !err.1.source_changed ==> *final(state) == *old(state),
        err.1.source_changed ==> {
            &&& *final(state) == (AppState { current_scan: None, ..*old(state) })
            &&& r.1->0.reason@ == err.1.reason@
            &&& r.1->0.auto_rescan == from_mft(*old(state))
        },
{
    let event = apply_outcome(state, &err.1);
    (err.0, event)
}

/// Whether the application was started in order to scan; said once only.
pub fn take_startup_scan_intent(state: &mut AppState) -> (r: bool)
    ensures
        r == (old(state).startup_scan_intent == Some(true)),
        *final(state) == (AppState { startup_scan_intent: Some(false), ..*old(state) }),
{
    let intent: bool = match state.startup_scan_intent {
        Some(b) => b,
        None => false,
    };
    state.startup_scan_intent = Some(false);
    intent
}

/// What a request for elevation comes to. The application goes on in any case.
pub fn restart_elevated(outcome: Result<ElevationOutcome, String>) -> (r: Result<bool, AppError>)
    ensures
        match outcome {
            Ok(ElevationOutcome::Launched) => r is Ok && r->Ok_0,
            Ok(ElevationOutcome::Cancelled) => r matches Err(AppError::Win32(m)) && m@
                == "用户取消 UAC 提权"@,
            Ok(ElevationOutcome::Failed { code }) => r matches Err(AppError::Win32(m)) && m@
                == "UAC 提权启动失败，code="@ + decimal(code as nat),
            Err(text) => r matches Err(AppError::Win32(m)) && m@ == text@,
        },
{
    match outcome {
        Ok(ElevationOutcome::Launched) => Ok(true),
        Ok(ElevationOutcome::Cancelled) => Err(
            AppError::Win32(String::from_str("用户取消 UAC 提权")),
        ),
        Ok(ElevationOutcome::Failed { code }) => {
            let mut m = String::from_str("UAC 提权启动失败，code=");
            push_decimal(&mut m, code as u64);
            Err(AppError::Win32(m))
        },
        Err(text) => Err(AppError::Win32(text)),
    }
}

// ---------------------------------------------------------------------------
// Migrations
// ---------------------------------------------------------------------------

/// Begins a migration or a restoration, unless one is running.
pub fn begin_task(state: &mut AppState) -> (r: Result<(), AppError>)
    ensures
        match r {
            Ok(()) => old(state).task is None && *final(state) == (AppState {
                task: Some(false),
                ..*old(state)
            }),
            Err(e) => {
                &&& old(state).task is Some
                &&& *final(state) == *old(state)
                &&& e matches AppError::Conflict(m) && m@ == "已有迁移或还原任务正在运行"@
            },
        },
{
    if state.task.is_some() {
        return Err(AppError::Conflict(String::from_str("已有迁移或还原任务正在运行")));
    }
    state.task = Some(false);
    Ok(())
}

/// Ends the running task.
pub fn end_task(state: &mut AppState)
    ensures
        *final(state) == (AppState { task: None, ..*old(state) }),
{
    state.task = None;
}

/// Asks the running task to stop. Says whether there is one.
pub fn cancel_migrate(state: &mut AppState) -> (r: bool)
    ensures
        r == old(state).task is Some,
        *final(state) == (AppState {
            task: if r {
                Some(true)
            } else {
                None
            },
            ..*old(state)
        }),
{
    if state.task.is_some() {
        state.task = Some(true);
        true
    } else {
        false
    }
}

/// The place of the first of the first `n` presets with the id.
pub open spec fn preset_with_id(presets: Seq<PresetView>, id: Seq<char>, n: nat) -> Option<int>
    decreases n,
{
    if n == 0 {
        None
    } else if preset_with_id(presets, id, (n - 1) as nat) is Some {
        preset_with_id(presets, id, (n - 1) as nat)
    } else if presets[n - 1].id == id {
        Some(n - 1)
    } else {
        None
    }
}

/// The subdirectory of the repository for a preset; there is one for data
/// without a preset.
pub open spec fn subdir_for(cfg: ConfigView, preset_id: Option<Seq<char>>) -> Seq<char> {
    match preset_id {
        Some(id) => match preset_with_id(cfg.presets, id, cfg.presets.len()) {
            Some(i) => cfg.presets[i].target_subdir,
            None => "custom"@,
        },
        None => "custom"@,
    }
}

/// Where the data of a migration is to lie.
pub open spec fn target_for(cfg: ConfigView, preset_id: Option<Seq<char>>, id: Seq<char>) -> Seq<
    char,
> {
    trim_end(cfg.repository, '/') + "/"@ + subdir_for(cfg, preset_id) + "/"@ + id + "/data"@
}

/// The task that carries out a migration.
pub open spec fn task_for(id: Seq<char>) -> Seq<char> {
    "task-"@ + id
}

/// What the source is renamed to.
pub open spec fn old_path_for(src: Seq<char>, task_id: Seq<char>) -> Seq<char> {
    replace_char(src, '/', '\\') + ".dayu-old-"@ + task_id
}

/// The subdirectory of the repository for a preset.
fn find_subdir(config: &Config, preset_id: &Option<String>) -> (r: String)
    ensures
        r@ == subdir_for(config@, opt_view(*preset_id)),
{
    match preset_id {
        Some(id) => {
            let ghost all = config@.presets;
            let mut i: usize = 0;
            while i < config.presets.len()
                invariant
                    i <= config.presets@.len(),
                    all == config@.presets,
                    *preset_id == Some(*id),
                    all.len() == config.presets@.len(),
                    preset_with_id(all, id@, i as nat) is None,
                decreases config.presets@.len() - i,
            {
                assert(all[i as int] == config.presets@[i as int]@);
                if str_eq(config.presets[i].id.as_str(), id.as_str()) {
                    proof {
                        assert(preset_with_id(all, id@, (i + 1) as nat) == Some(i as int));
                        lemma_preset_stays(all, id@, (i + 1) as nat, all.len());
                        assert(all[i as int].target_subdir
                            == config.presets@[i as int].target_subdir@);
                    }
                    return config.presets[i].target_subdir.clone();
                }
                i += 1;
            }
            String::from_str("custom")
        },
        None => String::from_str("custom"),
    }
}

proof fn lemma_preset_stays(presets: Seq<PresetView>, id: Seq<char>, a: nat, b: nat)
    requires
        a <= b,
        preset_with_id(presets, id, a) is Some,
    ensures
        preset_with_id(presets, id, b) == preset_with_id(presets, id, a),
    decreases b,
{
    if a < b {
        lemma_preset_stays(presets, id, a, (b - 1) as nat);
    }
}

/// Where the data of a migration is to lie.
pub fn target_path(config: &Config, preset_id: &Option<String>, migration_id: &str) -> (r: String)
    ensures
        r@ == target_for(config@, opt_view(*preset_id), migration_id@),
{
    let mut out: String = trimmed_end(config.repository.as_str(), '/');
    out.append("/");
    out.append(find_subdir(config, preset_id).as_str());
    out.append("/");
    out.append(migration_id);
    out.append("/data");
    out
}

/// `r` is the plan of a migration, or the conflict with another one.
pub open spec fn is_planned(
    migration_id: Seq<char>,
    src: Seq<char>,
    preset_id: Option<Seq<char>>,
    cfg: ConfigView,
    migs: Seq<MigrationView>,
    r: Result<MigratePlan, AppError>,
) -> bool {
    match first_conflict(migs, src, migs.len()) {
        Some(c) => r matches Err(AppError::Conflict(m)) && m@ == c,
        None => {
            let target = target_for(cfg, preset_id, migration_id);
            &&& r is Ok
            &&& r->Ok_0.task_id@ == task_for(migration_id)
            &&& r->Ok_0.migration_id@ == migration_id
            &&& r->Ok_0.src@ == src
            &&& r->Ok_0.target@ == target
            &&& r->Ok_0.tmp@ == target + ".tmp"@
            &&& r->Ok_0.old_path@ == old_path_for(src, task_for(migration_id))
            &&& opt_view(r->Ok_0.preset_id) == preset_id
        },
    }
}

/// Plans a migration, unless it conflicts with another one.
pub fn plan_migration(
    migration_id: &str,
    src: &str,
    preset_id: &Option<String>,
    config: &Config,
    existing: &[Migration],
    source_volume_serial: String,
    target_volume_serial: String,
    enable_vss: bool,
) -> (r: Result<MigratePlan, AppError>)
    ensures
        is_planned(
            migration_id@,
            src@,
            opt_view(*preset_id),
            config@,
            migrations_view(existing@),
            r,
        ),
        r is Ok ==> {
            &&& r->Ok_0.source_volume_serial@ == source_volume_serial@
            &&& r->Ok_0.target_volume_serial@ == target_volume_serial@
            &&& r->Ok_0.enable_vss == enable_vss
            &&& r->Ok_0.copy_concurrency is None
        },
{
    match migration_conflict(src, existing) {
        Some(c) => {
            return Err(AppError::Conflict(c));
        },
        None => {},
    }
    let task_id: String = prefixed_text("task-", migration_id);
    let target: String = target_path(config, preset_id, migration_id);
    let mut tmp: String = target.clone();
    tmp.append(".tmp");
    let mut old_path: String = replaced_char(src, '/', '\\');
    old_path.append(".dayu-old-");
    old_path.append(task_id.as_str());
    Ok(
        MigratePlan {
            task_id,
            migration_id: String::from_str(migration_id),
            src: String::from_str(src),
            target,
            tmp,
            old_path,
            preset_id: copy_opt(preset_id),
            source_volume_serial,
            target_volume_serial,
            enable_vss,
            copy_concurrency: None,
        },
    )
}

/// The migration that is to be restored or whose link is to be removed.
pub fn require_migration<'a>(state: &'a AppState, id: &str) -> (r: Result<&'a Migration, AppError>)
    ensures
        match first_with_id(state.store.table(), id@, state.store.table().len()) {
            Some(i) => r is Ok && r->Ok_0@ == state.store.table()[i],
            None => r matches Err(AppError::Store(m)) && m@ == "迁移记录不存在"@,
        },
{
    match state.store.find_migration(id) {
        Some(m) => Ok(m),
        None => Err(AppError::Store(String::from_str("迁移记录不存在"))),
    }
}

/// The range of times in the history, where both ends are given.
pub fn history_range<'a>(from: Option<&'a str>, to: Option<&'a str>) -> (r: Option<(&'a str, &'a str)>)
    ensures
        r == match (from, to) {
            (Some(a), Some(b)) => Some((a, b)),
            _ => None,
        },
{
    match (from, to) {
        (Some(a), Some(b)) => Some((a, b)),
        _ => None,
    }
}

// ---------------------------------------------------------------------------
// Laws
// ---------------------------------------------------------------------------

/// Two migrations never share a place in the repository, whatever their
/// presets, as long as their ids hold no separator.
pub proof fn law_targets_are_apart(
    cfg: ConfigView,
    preset_a: Option<Seq<char>>,
    preset_b: Option<Seq<char>>,
    a: Seq<char>,
    b: Seq<char>,
)
    requires
        a != b,
        !a.contains('/'),
        !b.contains('/'),
    ensures
        target_for(cfg, preset_a, a) != target_for(cfg, preset_b, b),
{
    let x = target_for(cfg, preset_a, a);
    let y = target_for(cfg, preset_b, b);
    if x == y {
        reveal_strlit("/data");
        reveal_strlit("/");
        let head_x = trim_end(cfg.repository, '/') + "/"@ + subdir_for(cfg, preset_a);
        let head_y = trim_end(cfg.repository, '/') + "/"@ + subdir_for(cfg, preset_b);
        lemma_last_part(x, head_x, a);
        lemma_last_part(y, head_y, b);
        let n = x.len() - 5;
        if a.len() < b.len() {
            assert(x[n - a.len() - 1] == '/');
            assert(y[n - a.len() - 1] == b[b.len() - a.len() - 1]);
            assert(b.contains('/'));
        } else if b.len() < a.len() {
            assert(y[n - b.len() - 1] == '/');
            assert(x[n - b.len() - 1] == a[a.len() - b.len() - 1]);
            assert(a.contains('/'));
        } else {
            assert(a =~= b) by {
                assert forall|i: int| 0 <= i < a.len() implies a[i] == b[i] by {
                    assert(x[n - a.len() + i] == a[i]);
                    assert(y[n - b.len() + i] == b[i]);
                }
            }
        }
    }
}

/// Where the id stands in the place of a migration.
proof fn lemma_last_part(x: Seq<char>, head: Seq<char>, id: Seq<char>)
    requires
        x == head + "/"@ + id + "/data"@,
        "/"@.len() == 1,
        "/"@[0] == '/',
        "/data"@.len() == 5,
    ensures
        x.len() == head.len() + id.len() + 6,
        x[x.len() - 6 - id.len()] == '/',
        forall|i: int| 0 <= i < id.len() ==> x[#[trigger] (x.len() - 5 - id.len() + i)] == id[i],
{
}

/// An answer about a scan that is no longer the current one is refused,
/// whichever scan took its place, if any.
pub proof fn law_replaced_scan_is_refused(before: AppState, after: AppState, scan_id: Seq<char>)
    requires
        is_current(before, scan_id),
        after.current_scan is Some ==> after.current_scan->0@.scan_id
            != before.current_scan->0@.scan_id,
    ensures
        !is_current(after, scan_id),
{
}

} // verus!
