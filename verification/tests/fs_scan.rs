use dayu_disk_manager::mft::MftError;
use dayu_disk_manager::error::IoFault;
use dayu_disk_manager::models::{
    AccessState, Config, CurrentPhase, FastScanFailure, ScanConfig, ScanMode, ScanProgressEvent,
    ScanSource,
};
use dayu_disk_manager::paths::{normalize, EnvVars};
use dayu_disk_manager::scanner::engine::{map_mft_error, map_volume_error};
use dayu_disk_manager::scanner::fs::{
    concurrency_for, process_fs_item, stable_hash_path, win32_drive_kind, DriveKind,
};
use dayu_disk_manager::scanner::{
    generate_scan_id, map_io_error, DirectoryGraph, FsEntry, FsEntryError, FsEntryResult,
    FsReader, FsScan, LinkProbes, RealScanEngine, ScanDriveError, ScanOutcome,
};
use dayu_disk_manager::win32::VolumeError;
use std::cell::RefCell;
use std::collections::HashMap;

type MockTree = HashMap<String, Vec<FsEntryResult>>;

struct MockFsReader {
    dirs: MockTree,
}

impl FsReader for MockFsReader {
    fn read_dir(&self, path: &str) -> Result<Vec<FsEntryResult>, FsEntryError> {
        match self.dirs.get(&normalize(path)).cloned() {
            Some(entries) if entries.len() == 1 => match &entries[0] {
                Err((name, FsEntryError::AccessDenied)) if name.is_empty() => {
                    Err(FsEntryError::AccessDenied)
                }
                _ => Ok(entries),
            },
            Some(entries) => Ok(entries),
            None => Err(FsEntryError::Io { message: format!("not found: {}", path) }),
        }
    }
}

fn entry(name: &str, is_dir: bool, size: u64) -> FsEntryResult {
    Ok(FsEntry { name: name.into(), is_dir, file_size: size, reparse_tag: None })
}

fn reparse_dir(name: &str, tag: u32) -> FsEntryResult {
    Ok(FsEntry { name: name.into(), is_dir: true, file_size: 0, reparse_tag: Some(tag) })
}

fn err_entry(name: &str, err: FsEntryError) -> FsEntryResult {
    Err((name.into(), err))
}

fn tree() -> MockTree {
    let mut dirs = HashMap::new();
    dirs.insert(
        normalize("C:\\"),
        vec![
            entry("pagefile.sys", false, 1024),
            entry("Users", true, 0),
            entry("ProgramData", true, 0),
        ],
    );
    dirs.insert(normalize("C:\\Users"), vec![entry("alice", true, 0), entry("bob", true, 0)]);
    dirs.insert(
        normalize("C:\\Users\\alice"),
        vec![entry("docs", true, 0), entry("a.txt", false, 100), entry("b.txt", false, 200)],
    );
    dirs.insert(normalize("C:\\Users\\alice\\docs"), vec![entry("c.txt", false, 300)]);
    dirs.insert(normalize("C:\\Users\\bob"), vec![entry("d.txt", false, 400)]);
    dirs.insert(normalize("C:\\ProgramData"), vec![]);
    dirs
}

/// Walks the tree, handing out so many directories at once; the last one
/// handed out is observed first.
fn walk(
    dirs: MockTree,
    excluded_paths: &[String],
    worker_count: usize,
) -> (DirectoryGraph, u64, u64) {
    let reader = MockFsReader { dirs };
    let normalized: Vec<String> = excluded_paths.iter().map(|p| normalize(p)).collect();
    let mut scan = FsScan::start('C');
    while !scan.is_done() {
        let mut batch = Vec::new();
        while batch.len() < worker_count {
            match scan.next_item() {
                Some(item) => batch.push(item),
                None => break,
            }
        }
        while let Some(item) = batch.pop() {
            let obs = process_fs_item(&reader, item, false);
            scan.observe(obs);
        }
    }
    scan.finish(&normalized)
}

fn no_env() -> EnvVars {
    EnvVars { userprofile: None, localappdata: None, appdata: None }
}

fn run_fs_scan(dirs: MockTree, excluded_paths: &[String]) -> ScanOutcome {
    let cfg = Config {
        schema_version: 1,
        repository: "D:\\repo".into(),
        scan: ScanConfig { min_size_mb: 0, exclude_paths: excluded_paths.to_vec() },
        presets: Vec::new(),
    };
    let probes = LinkProbes {
        junction_exists: |_: &str| false,
        link_valid: |_: &str| false,
        target_size: |_: &str| None,
    };
    RealScanEngine.fs_outcome(
        walk(dirs, excluded_paths, 2),
        &cfg,
        &[],
        &no_env(),
        &probes,
        &|_| {},
        "s".into(),
    )
}

#[test]
fn fs_scan_produces_real_tree_matching_mft_contract() {
    let (graph, _, _) = walk(tree(), &[], 2);
    assert!(graph.nodes.len() > 1);
    assert!(graph.children.len() > 0);

    let root = graph.nodes.get(&graph.root).unwrap();
    assert_eq!(root.path, "C:\\");
    assert_eq!(root.display_name, "C");

    let users_norm = normalize("C:\\Users");
    let users_ref = graph
        .nodes
        .values()
        .iter()
        .find(|n| normalize(&n.path) == users_norm)
        .map(|n| n.file_ref)
        .unwrap();
    assert!(graph.children.get(&graph.root).unwrap().contains(&users_ref));
}

#[test]
fn root_id_comes_from_actual_insertion() {
    let (graph, _, _) = walk(tree(), &[], 2);
    let root = graph.nodes.get(&graph.root).unwrap();
    assert_eq!(root.path, "C:\\");
    assert_eq!(graph.root.record_no, stable_hash_path(&normalize("C:\\")));
}

#[test]
fn file_count_accumulated_globally() {
    let (graph, scanned_files, _) = walk(tree(), &[], 2);
    assert_eq!(scanned_files, 5);
    let root = graph.nodes.get(&graph.root).unwrap();
    assert_eq!(root.direct_file_count, 1);
    assert_eq!(root.subtree_file_count, 5);
}

#[test]
fn excluded_subtree_marked() {
    let excluded = vec!["C:\\Users\\alice".to_string()];
    let (graph, _, _) = walk(tree(), &excluded, 2);
    let alice_norm = normalize("C:\\Users\\alice");
    let alice =
        graph.nodes.values().iter().find(|n| normalize(&n.path) == alice_norm).unwrap();
    assert!(alice.excluded);
    assert!(!alice.visible);

    let users_norm = normalize("C:\\Users");
    let users =
        graph.nodes.values().iter().find(|n| normalize(&n.path) == users_norm).unwrap();
    assert_eq!(users.subtree_file_count, 1);
}

#[test]
fn reparse_does_not_descend_into_target() {
    let mut dirs = tree();
    let root_entries = dirs.get_mut(&normalize("C:\\")).unwrap();
    root_entries.push(reparse_dir("junction", 0xA0000003));
    dirs.insert(normalize("C:\\junction"), vec![entry("inside.txt", false, 9999)]);

    let (graph, scanned_files, _) = walk(dirs, &[], 2);
    let junction_norm = normalize("C:\\junction");
    let junction = graph.nodes.values().iter().find(|n| normalize(&n.path) == junction_norm);
    assert!(junction.is_some());
    let junction = junction.unwrap();
    assert_eq!(junction.reparse_tag, Some(0xA0000003));
    assert!(!graph.nodes.values().iter().any(|n| n.path == "C:\\junction\\inside.txt"));
    assert_eq!(scanned_files, 5);
}

#[test]
fn access_denied_marked_inaccessible() {
    let mut dirs = tree();
    dirs.insert(
        normalize("C:\\Users\\bob"),
        vec![Err((String::new(), FsEntryError::AccessDenied))],
    );
    let (graph, _, _) = walk(dirs, &[], 2);
    let bob_norm = normalize("C:\\Users\\bob");
    let bob = graph.nodes.values().iter().find(|n| normalize(&n.path) == bob_norm).unwrap();
    assert_eq!(bob.access_state, AccessState::Inaccessible);
    assert_eq!(bob.direct_dir_count, 0);
}

#[test]
fn entry_error_not_silently_accessible() {
    let mut dirs = tree();
    dirs.get_mut(&normalize("C:\\")).unwrap().push(err_entry(
        "badfile.dll",
        FsEntryError::Io { message: "crc error".into() },
    ));
    let (graph, _, errors) = walk(dirs, &[], 2);
    let root = graph.nodes.get(&graph.root).unwrap();
    assert_eq!(root.access_state, AccessState::Unknown);
    assert_eq!(errors, 1);
}

#[test]
fn cancel_does_not_publish_partial_tree() {
    let reader = MockFsReader { dirs: tree() };
    let mut scan = FsScan::start('C');
    let item = scan.next_item().unwrap();
    scan.observe(process_fs_item(&reader, item, false));
    let cfg = Config {
        schema_version: 1,
        repository: "D:\\repo".into(),
        scan: ScanConfig { min_size_mb: 0, exclude_paths: Vec::new() },
        presets: Vec::new(),
    };
    let probes = LinkProbes {
        junction_exists: |_: &str| false,
        link_valid: |_: &str| false,
        target_size: |_: &str| None,
    };
    let result = RealScanEngine.fs_scan(
        scan,
        true,
        &cfg,
        &[],
        &[],
        &no_env(),
        &probes,
        &|_| {},
        "s".into(),
    );
    assert!(matches!(result, Err(ScanDriveError::Cancelled)));
}

#[test]
fn finished_walks_give_a_tree() {
    let reader = MockFsReader { dirs: tree() };
    let mut scan = FsScan::start('C');
    while let Some(item) = scan.next_item() {
        scan.observe(process_fs_item(&reader, item, false));
    }
    let cfg = Config {
        schema_version: 1,
        repository: "D:\\repo".into(),
        scan: ScanConfig { min_size_mb: 0, exclude_paths: Vec::new() },
        presets: Vec::new(),
    };
    let probes = LinkProbes {
        junction_exists: |_: &str| false,
        link_valid: |_: &str| false,
        target_size: |_: &str| None,
    };
    let outcome = RealScanEngine
        .fs_scan(
            scan,
            false,
            &cfg,
            &[],
            &["C:/Users/alice/".to_string()],
            &no_env(),
            &probes,
            &|_| {},
            "s".into(),
        )
        .unwrap();
    assert_eq!(outcome.diagnostics.scanned_files, 5);
    assert!(outcome.store.node("C:\\Users\\bob").is_some());
    assert!(outcome.store.node("C:\\Users\\alice").is_none());
    assert_eq!(outcome.store.node("C:\\Users").unwrap().size_bytes, 400);
}

#[test]
fn drives_are_scanned_by_their_mft_unless_a_walk_is_asked_for() {
    assert_eq!(RealScanEngine::route(ScanMode::Auto), ScanSource::Mft);
    assert_eq!(RealScanEngine::route(ScanMode::Mft), ScanSource::Mft);
    assert_eq!(RealScanEngine::route(ScanMode::Filesystem), ScanSource::Filesystem);
}

#[test]
fn cancelled_items_are_not_read() {
    let reader = MockFsReader { dirs: tree() };
    let mut scan = FsScan::start('C');
    let item = scan.next_item().unwrap();
    let obs = process_fs_item(&reader, item, true);
    assert!(obs.direct_dirs.is_empty());
    assert!(obs.direct_files.is_empty());
    scan.observe(obs);
    assert!(scan.is_done());
}

#[test]
fn worker_count_upper_bound() {
    let fixed = |_: char| DriveKind::Fixed;
    let removable = |_: char| DriveKind::Removable;
    let network = |_: char| DriveKind::Network;

    for available in [0, 1, 3, 64] {
        let fixed_count = concurrency_for(&fixed, 'C', available);
        assert!((1..=8).contains(&fixed_count));

        assert_eq!(concurrency_for(&removable, 'C', available), 1);
        assert_eq!(concurrency_for(&network, 'C', available), 1);
    }
    assert_eq!(concurrency_for(&fixed, 'C', 3), 3);
}

#[test]
fn root_file_summary_injection() {
    let outcome = run_fs_scan(tree(), &[]);
    let summary = outcome.store.root_file_summary();
    assert_eq!(summary.system_metadata_size_bytes, None);
    assert!(summary.incomplete);
    assert_eq!(summary.direct_file_count, 1);
    assert_eq!(summary.direct_file_size_bytes, 1024);
    assert_eq!(summary.total_known_size_bytes, 1024);
    assert_eq!(outcome.diagnostics.scanned_records, 0);
    assert_eq!(outcome.diagnostics.hard_link_entries, 0);
    assert_eq!(outcome.store.source(), ScanSource::Filesystem);
}

#[test]
fn root_direct_files_injected() {
    let mut dirs = tree();
    dirs.insert(
        normalize("C:\\"),
        vec![
            entry("pagefile.sys", false, 1024),
            entry("hiberfil.sys", false, 2048),
            entry("Users", true, 0),
            entry("ProgramData", true, 0),
        ],
    );
    let outcome = run_fs_scan(dirs, &[]);
    let summary = outcome.store.root_file_summary();
    assert_eq!(summary.direct_file_count, 2);
    assert_eq!(summary.direct_file_size_bytes, 3072);
}

#[test]
fn subtree_aggregation_matches_mft_semantics() {
    let mut dirs = HashMap::new();
    dirs.insert(
        normalize("C:\\"),
        vec![entry("root.txt", false, 100), entry("Users", true, 0)],
    );
    dirs.insert(normalize("C:\\Users"), vec![entry("alice", true, 0)]);
    dirs.insert(
        normalize("C:\\Users\\alice"),
        vec![entry("docs", true, 0), entry("a.txt", false, 500)],
    );
    dirs.insert(normalize("C:\\Users\\alice\\docs"), vec![entry("b.txt", false, 300)]);

    let (graph, _, _) = walk(dirs, &[], 2);
    let root = graph.nodes.get(&graph.root).unwrap();
    assert_eq!(root.direct_file_size_bytes, 100);
    assert_eq!(root.direct_file_count, 1);
    assert_eq!(root.subtree_size_bytes, 900);
    assert_eq!(root.subtree_file_count, 3);
    assert_eq!(root.subtree_dir_count, 4);
}

#[test]
fn the_number_of_workers_does_not_matter() {
    let (one, files, _) = walk(tree(), &[], 1);
    for workers in 2..5 {
        let (many, many_files, _) = walk(tree(), &[], workers);
        assert_eq!(files, many_files);
        assert_eq!(one.nodes.len(), many.nodes.len());
        for n in one.nodes.values() {
            let m = many.nodes.get(&n.file_ref).unwrap();
            assert_eq!(n.path, m.path);
            assert_eq!(n.subtree_size_bytes, m.subtree_size_bytes);
            assert_eq!(one.children.get(&n.file_ref), many.children.get(&n.file_ref));
        }
    }
}

#[test]
fn the_order_of_reading_does_not_matter() {
    let mut dirs = tree();
    dirs.insert(
        normalize("C:\\ProgramData"),
        vec![
            reparse_dir("link", 1),
            entry("locked", true, 0),
            entry("odd", true, 0),
            err_entry("broken", FsEntryError::AccessDenied),
        ],
    );
    dirs.insert(
        normalize("C:\\ProgramData\\locked"),
        vec![err_entry("", FsEntryError::AccessDenied)],
    );
    let reader = MockFsReader { dirs };
    let run = |pick: &dyn Fn(usize, usize) -> usize| {
        let mut scan = FsScan::start('C');
        let mut out = Vec::new();
        let mut turn = 0;
        while !scan.is_done() {
            while let Some(item) = scan.next_item() {
                out.push(item);
            }
            let item = out.remove(pick(turn, out.len()));
            scan.observe(process_fs_item(&reader, item, false));
            turn += 1;
        }
        scan.finish(&[])
    };
    let (one, files, errors) = run(&|_, _| 0);
    assert_eq!(files, 5);
    assert_eq!(errors, 2);
    assert_eq!(one.nodes.len(), 9);
    let orders: [&dyn Fn(usize, usize) -> usize; 3] =
        [&|_, n| n - 1, &|turn, n| turn * 7 % n, &|turn, n| (turn / 2) % n];
    for pick in orders {
        let (other, other_files, other_errors) = run(pick);
        assert_eq!((files, errors), (other_files, other_errors));
        assert_eq!(one.root, other.root);
        assert_eq!(one.nodes.len(), other.nodes.len());
        for n in one.nodes.values() {
            let m = other.nodes.get(&n.file_ref).unwrap();
            assert_eq!(n.path, m.path);
            assert_eq!(n.access_state, m.access_state);
            assert_eq!(n.subtree_size_bytes, m.subtree_size_bytes);
            assert_eq!(one.children.get(&n.file_ref), other.children.get(&n.file_ref));
        }
    }
}

#[test]
fn children_are_in_the_order_of_their_names() {
    let (graph, _, _) = walk(tree(), &[], 3);
    let names: Vec<String> = graph
        .children
        .get(&graph.root)
        .unwrap()
        .iter()
        .map(|r| graph.nodes.get(r).unwrap().display_name.clone())
        .collect();
    assert_eq!(names, vec!["ProgramData", "Users"]);
}

#[test]
fn every_4096th_directory_is_reported() {
    let mut dirs = HashMap::new();
    let kids: Vec<FsEntryResult> = (0..5000).map(|i| entry(&format!("d{i}"), true, 0)).collect();
    dirs.insert(normalize("C:\\"), kids);
    let reader = MockFsReader { dirs };
    let mut scan = FsScan::start('C');
    let mut reports: Vec<ScanProgressEvent> = Vec::new();
    while let Some(item) = scan.next_item() {
        let obs = process_fs_item(&reader, item, false);
        reports.extend(scan.observe(obs));
    }
    assert_eq!(reports.len(), 1);
    assert_eq!(reports[0].scanned_dirs, 4096);
    assert_eq!(reports[0].current_phase, CurrentPhase::WalkingFs);
}

#[test]
fn phases_are_reported() {
    let phases = RefCell::new(Vec::new());
    let probes = LinkProbes {
        junction_exists: |_: &str| false,
        link_valid: |_: &str| false,
        target_size: |_: &str| None,
    };
    let cfg = Config {
        schema_version: 1,
        repository: "D:\\repo".into(),
        scan: ScanConfig { min_size_mb: 500, exclude_paths: Vec::new() },
        presets: Vec::new(),
    };
    let outcome = RealScanEngine.fs_outcome(
        walk(tree(), &[], 2),
        &cfg,
        &[],
        &no_env(),
        &probes,
        &|e: ScanProgressEvent| phases.borrow_mut().push(e.current_phase),
        "scan-7".into(),
    );
    assert_eq!(outcome.store.scan_id(), "scan-7");
    assert!(outcome.store.roots().is_empty());
    assert_eq!(outcome.store.filtered_root_count(), 2);
    assert!(phases.into_inner().contains(&CurrentPhase::Annotating));
}

#[test]
fn hashes_are_the_same_in_every_process() {
    assert_eq!(stable_hash_path(""), 0xcbf29ce484222325);
    assert_eq!(stable_hash_path("a"), 0xaf63dc4c8601ec8c);
    assert_eq!(stable_hash_path("foobar"), 0x85944171f73967e8);
}

#[test]
fn system_errors_are_sorted() {
    assert!(matches!(map_io_error(true, None, "x"), FsEntryError::AccessDenied));
    assert!(matches!(map_io_error(false, Some(5), "x"), FsEntryError::AccessDenied));
    match map_io_error(false, Some(3), "not found") {
        FsEntryError::Io { message } => assert_eq!(message, "not found"),
        _ => panic!("other errors keep their message"),
    }
    assert_eq!(win32_drive_kind(2), DriveKind::Removable);
    assert_eq!(win32_drive_kind(3), DriveKind::Fixed);
    assert_eq!(win32_drive_kind(4), DriveKind::Network);
    assert_eq!(win32_drive_kind(0), DriveKind::Other);
}

#[test]
fn scan_errors_follow_their_causes() {
    assert!(matches!(
        map_volume_error(VolumeError::AccessDenied),
        ScanDriveError::NeedsElevation
    ));
    assert!(matches!(
        map_volume_error(VolumeError::InvalidVolumeData),
        ScanDriveError::FastScanFailure(FastScanFailure::InvalidVolumeData)
    ));
    assert!(matches!(
        map_volume_error(VolumeError::Io { code: 32, operation: "open".into() }),
        ScanDriveError::FastScanFailure(FastScanFailure::Io { code: Some(32) })
    ));
    assert!(matches!(map_mft_error(MftError::NeedElevation), ScanDriveError::NeedsElevation));
    assert!(matches!(map_mft_error(MftError::Cancelled), ScanDriveError::Cancelled));
    assert!(matches!(
        map_mft_error(MftError::RootRecordMissing),
        ScanDriveError::FastScanFailure(FastScanFailure::RootRecordMissing)
    ));
    assert!(matches!(
        map_mft_error(MftError::BadRecord { ref_no: 1 }),
        ScanDriveError::FastScanFailure(FastScanFailure::Io { code: None })
    ));
    assert!(matches!(
        map_mft_error(MftError::Io(IoFault { code: Some(21), message: "not ready".into() })),
        ScanDriveError::FastScanFailure(FastScanFailure::Io { code: Some(21) })
    ));
    assert!(matches!(
        map_mft_error(MftError::ExcessiveRecordErrors { skipped: 101, scanned: 7 }),
        ScanDriveError::FastScanFailure(FastScanFailure::ExcessiveRecordErrors {
            skipped: 101,
            scanned: 7
        })
    ));
}

#[test]
fn scan_ids_differ_with_the_time() {
    let a = generate_scan_id(Some(1));
    let b = generate_scan_id(Some(2));
    assert_ne!(a, b);
    assert_eq!(generate_scan_id(None), generate_scan_id(Some(0)));
}
