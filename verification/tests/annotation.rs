use dayu_disk_manager::mft::FileRef;
use dayu_disk_manager::models::{
    AccessState, Config, Migration, MigrationStatus, Preset, PresetCategory, ScanConfig,
    ScanItemStatus,
};
use dayu_disk_manager::paths::{matches_preset, EnvVars};
use dayu_disk_manager::refmap::RefMap;
use dayu_disk_manager::scanner::{
    annotate_graph, annotate_graph_with_callbacks, annotate_graph_with_skipped_records,
    build_root_summary, DirectoryGraph, DirectoryNode, GraphDiagnostics, LinkProbes,
};

fn env() -> EnvVars {
    EnvVars { userprofile: None, localappdata: None, appdata: None }
}

fn at(g: &DirectoryGraph, r: FileRef) -> &DirectoryNode {
    g.nodes.get(&r).unwrap()
}

fn fileref(record_no: u64, sequence: u16) -> FileRef {
    FileRef {
        record_no,
        sequence,
    }
}

fn node(
    record_no: u64,
    path: &str,
    depth: u32,
    subtree_size_bytes: u64,
    reparse_tag: Option<u32>,
    excluded: bool,
) -> DirectoryNode {
    DirectoryNode {
        file_ref: fileref(record_no, 1),
        path: path.into(),
        display_name: path.rsplit('\\').next().unwrap_or(path).into(),
        depth,
        reparse_tag,
        is_junction: false,
        direct_file_size_bytes: 0,
        direct_file_count: 0,
        direct_dir_count: 0,
        subtree_size_bytes,
        subtree_file_count: 0,
        subtree_dir_count: 1,
        excluded,
        reachable_from_root: true,
        matched_preset: None,
        category: None,
        auto_migrate: false,
        access_state: AccessState::Unknown,
        scan_status: None,
        migration_id: None,
        linked_target_size_bytes: None,
        visible: false,
    }
}

fn make_graph(
    nodes: Vec<DirectoryNode>,
    edges: &[(u64, u64)],
    root_record_no: u64,
) -> DirectoryGraph {
    let mut node_map = RefMap::new();
    for node in nodes {
        node_map.insert(node.file_ref, node);
    }
    let mut children: RefMap<Vec<FileRef>> = RefMap::new();
    for &(parent, child) in edges {
        let mut kids = children.get(&fileref(parent, 1)).cloned().unwrap_or_default();
        kids.push(fileref(child, 1));
        children.insert(fileref(parent, 1), kids);
    }
    DirectoryGraph {
        nodes: node_map,
        root: fileref(root_record_no, 1),
        children,
        system_metadata_size_bytes: 0,
        diagnostics: GraphDiagnostics::none(),
        excluded_subtree_size_bytes: 0,
    }
}

fn config(min_size_mb: u64, presets: Vec<Preset>) -> Config {
    Config {
        schema_version: 1,
        repository: "D:\\repo".into(),
        scan: ScanConfig {
            min_size_mb,
            exclude_paths: Vec::new(),
        },
        presets,
    }
}

fn preset(path: &str) -> Preset {
    Preset {
        id: "cache".into(),
        name: "Cache".into(),
        category: PresetCategory::DevCache,
        match_paths: vec![path.into()],
        match_processes: Vec::new(),
        auto_migrate: true,
        target_subdir: "cache".into(),
    }
}

fn migration(
    id: &str,
    source: &str,
    target: &str,
    status: MigrationStatus,
) -> Migration {
    Migration {
        id: id.into(),
        schema_version: 1,
        source: source.into(),
        target: target.into(),
        old_path: String::new(),
        preset: None,
        created_at: "2026-07-20T00:00:00Z".into(),
        status,
        source_volume_serial: "C".into(),
        target_volume_serial: "D".into(),
        recycle_bin_ref: String::new(),
        pending_cleanup: None,
    }
}

#[test]
fn annotation_marks_preset_junction_and_target_size_without_changing_occupancy() {
    let target = "D:\\repo\\data";
    let path = "C:\\Users\\alice\\Cache";
    let mut graph = make_graph(
        vec![
            node(5, "C:\\", 0, 4096, None, false),
            node(20, path, 1, 4096, Some(0xA0000003), false),
        ],
        &[(5, 20)],
        5,
    );
    let cfg = config(1, vec![preset(path)]);
    let migrations = vec![migration(
        "m1",
        path,
        target,
        MigrationStatus::Active,
    )];
    annotate_graph_with_callbacks(
        &mut graph,
        &cfg,
        &migrations,
        &env(),
        &|_| true,
        &|_| true,
        &|_| Some(777),
        0,
    );

    let annotated = &at(&graph, fileref(20, 1));
    assert_eq!(annotated.matched_preset.as_deref(), Some("cache"));
    assert_eq!(annotated.category, Some(PresetCategory::DevCache));
    assert!(annotated.auto_migrate);
    assert!(annotated.is_junction);
    assert_eq!(annotated.scan_status, Some(ScanItemStatus::Migrated));
    assert_eq!(annotated.migration_id.as_deref(), Some("m1"));
    assert_eq!(annotated.linked_target_size_bytes, Some(777));
    assert_eq!(annotated.subtree_size_bytes, 4096);
}

#[test]
fn annotation_status_priority_is_broken_then_pending_then_migrated_then_existing() {
    let target = "D:\\repo\\data";
    let path = "C:\\data";
    let cfg = config(0, Vec::new());

    let statuses = vec![
        MigrationStatus::Active,
        MigrationStatus::PendingManualConfirm,
        MigrationStatus::OldPendingDelete,
    ];
    let migrations = statuses
        .into_iter()
        .enumerate()
        .map(|(i, status)| migration(&format!("m{i}"), path, target, status))
        .collect::<Vec<_>>();
    let mut broken = make_graph(
        vec![
            node(5, "C:\\", 0, 0, None, false),
            node(20, path, 1, 0, Some(1), false),
        ],
        &[(5, 20)],
        5,
    );
    annotate_graph_with_callbacks(
        &mut broken,
        &cfg,
        &migrations,
        &env(),
        &|_| true,
        &|_| false,
        &|_| Some(0),
        0,
    );
    assert_eq!(
        at(&broken, fileref(20, 1)).scan_status,
        Some(ScanItemStatus::LinkBroken)
    );

    let pending = vec![migration(
        "pending",
        path,
        target,
        MigrationStatus::PendingManualConfirm,
    )];
    let mut graph_pending = make_graph(
        vec![
            node(5, "C:\\", 0, 0, None, false),
            node(20, path, 1, 0, Some(1), false),
        ],
        &[(5, 20)],
        5,
    );
    annotate_graph_with_callbacks(
        &mut graph_pending,
        &cfg,
        &pending,
        &env(),
        &|_| true,
        &|_| true,
        &|_| Some(0),
        0,
    );
    assert_eq!(
        at(&graph_pending, fileref(20, 1)).scan_status,
        Some(ScanItemStatus::MigrationPending)
    );

    let active = vec![migration(
        "active",
        path,
        target,
        MigrationStatus::Active,
    )];
    let mut graph_active = make_graph(
        vec![
            node(5, "C:\\", 0, 0, None, false),
            node(20, path, 1, 0, Some(1), false),
        ],
        &[(5, 20)],
        5,
    );
    annotate_graph_with_callbacks(
        &mut graph_active,
        &cfg,
        &active,
        &env(),
        &|_| true,
        &|_| true,
        &|_| Some(0),
        0,
    );
    assert_eq!(
        at(&graph_active, fileref(20, 1)).scan_status,
        Some(ScanItemStatus::Migrated)
    );

    let mut existing = make_graph(
        vec![
            node(5, "C:\\", 0, 0, None, false),
            node(20, path, 1, 0, Some(1), false),
        ],
        &[(5, 20)],
        5,
    );
    annotate_graph_with_callbacks(
        &mut existing,
        &cfg,
        &[],
        &env(),
        &|_| true,
        &|_| true,
        &|_| Some(0),
        0,
    );
    assert_eq!(
        at(&existing, fileref(20, 1)).scan_status,
        Some(ScanItemStatus::ExistingLink)
    );
}

#[test]
fn annotation_reparse_without_confirmed_junction_is_not_existing_link() {
    let path = "C:\\not-a-junction";
    let mut graph = make_graph(
        vec![
            node(5, "C:\\", 0, 0, None, false),
            node(20, path, 1, 0, Some(1), false),
        ],
        &[(5, 20)],
        5,
    );
    annotate_graph_with_callbacks(
        &mut graph,
        &config(0, Vec::new()),
        &[],
        &env(),
        &|_| false,
        &|_| true,
        &|_| Some(0),
        0,
    );
    assert!(!at(&graph, fileref(20, 1)).is_junction);
    assert_eq!(at(&graph, fileref(20, 1)).scan_status, None);
}

#[test]
fn annotation_propagates_migrated_before_link_and_stops_on_cycles() {
    let target = "D:\\repo\\data";
    let mut graph = make_graph(
        vec![
            node(5, "C:\\", 0, 0, None, false),
            node(20, "C:\\parent", 1, 0, None, false),
            node(30, "C:\\parent\\migrated", 2, 0, None, false),
            node(40, "C:\\parent\\link", 2, 0, Some(1), false),
        ],
        &[(5, 20), (20, 30), (20, 40), (30, 20)],
        5,
    );
    let migrations = vec![migration(
        "m1",
        "C:\\parent\\migrated",
        target,
        MigrationStatus::Active,
    )];
    annotate_graph_with_callbacks(
        &mut graph,
        &config(0, Vec::new()),
        &migrations,
        &env(),
        &|_| true,
        &|_| true,
        &|_| Some(0),
        0,
    );
    assert_eq!(
        at(&graph, fileref(30, 1)).scan_status,
        Some(ScanItemStatus::Migrated)
    );
    assert_eq!(
        at(&graph, fileref(40, 1)).scan_status,
        Some(ScanItemStatus::ExistingLink)
    );
    assert_eq!(
        at(&graph, fileref(20, 1)).scan_status,
        Some(ScanItemStatus::ContainsMigrated)
    );
    assert_eq!(
        at(&graph, fileref(5, 1)).scan_status,
        Some(ScanItemStatus::ContainsMigrated)
    );
}

#[test]
fn visibility_uses_subtree_size_and_forced_ancestor_chain() {
    let mut graph = make_graph(
        vec![
            node(5, "C:\\", 0, 1, None, false),
            node(20, "C:\\big", 1, 1024 * 1024, None, false),
            node(30, "C:\\big\\small", 2, 1, None, false),
            node(40, "C:\\preset", 1, 1, None, false),
            node(50, "C:\\inaccessible", 1, 1, None, false),
            node(60, "C:\\hidden", 1, 1, None, false),
        ],
        &[(5, 20), (20, 30), (5, 40), (5, 50), (5, 60)],
        5,
    );
    let place = graph.nodes.position(fileref(50, 1)).unwrap();
    graph.nodes.value_mut(place).access_state = AccessState::Inaccessible;
    let mut preset = preset("C:\\preset");
    preset.id = "preset".into();
    annotate_graph_with_callbacks(
        &mut graph,
        &config(1, vec![preset]),
        &[],
        &env(),
        &|_| false,
        &|_| true,
        &|_| Some(0),
        0,
    );
    assert!(at(&graph, fileref(5, 1)).visible);
    assert!(at(&graph, fileref(20, 1)).visible);
    assert!(!at(&graph, fileref(30, 1)).visible);
    assert!(at(&graph, fileref(40, 1)).visible);
    assert!(at(&graph, fileref(50, 1)).visible);
    assert!(!at(&graph, fileref(60, 1)).visible);
}

#[test]
fn visibility_min_zero_shows_normal_nodes_but_never_excluded_nodes() {
    let mut graph = make_graph(
        vec![
            node(5, "C:\\", 0, 0, None, false),
            node(20, "C:\\normal", 1, 0, None, false),
            node(30, "C:\\excluded", 1, u64::MAX, None, true),
        ],
        &[(5, 20), (5, 30)],
        5,
    );
    annotate_graph_with_callbacks(
        &mut graph,
        &config(0, Vec::new()),
        &[],
        &env(),
        &|_| false,
        &|_| true,
        &|_| Some(0),
        0,
    );
    assert!(at(&graph, fileref(5, 1)).visible);
    assert!(at(&graph, fileref(20, 1)).visible);
    assert!(!at(&graph, fileref(30, 1)).visible);
}

#[test]
fn root_summary_uses_actual_root_ref_and_saturates_total() {
    let root = fileref(5, 42);
    let mut root_node = node(5, "C:\\", 0, 0, None, false);
    root_node.file_ref = root;
    root_node.direct_file_size_bytes = u64::MAX - 3;
    root_node.direct_file_count = 7;
    let mut graph = make_graph(vec![root_node], &[], 5);
    graph.root = root;
    graph.system_metadata_size_bytes = 10;

    let summary = build_root_summary(&graph, 2);
    assert_eq!(summary.direct_file_size_bytes, u64::MAX - 3);
    assert_eq!(summary.direct_file_count, 7);
    assert_eq!(summary.system_metadata_size_bytes, Some(10));
    assert_eq!(summary.total_known_size_bytes, u64::MAX);
    assert!(summary.incomplete);
}

#[test]
fn root_summary_is_complete_when_no_mft_records_are_skipped() {
    let mut root_node = node(5, "C:\\", 0, 123, None, false);
    root_node.direct_file_size_bytes = 123;
    root_node.direct_file_count = 1;
    let graph = make_graph(vec![root_node], &[], 5);
    let summary = build_root_summary(&graph, 0);
    assert_eq!(summary.system_metadata_size_bytes, Some(0));
    assert!(!summary.incomplete);
    assert_eq!(summary.total_known_size_bytes, 123);
}

fn small_graph() -> DirectoryGraph {
    make_graph(
        vec![node(5, "C:\\", 0, 0, None, false), node(20, "C:\\data", 1, 0, Some(1), false)],
        &[(5, 20)],
        5,
    )
}

#[test]
fn missing_targets_have_no_size() {
    let migrations =
        vec![migration("m1", "c:/DATA/", "D:\\gone", MigrationStatus::OldPendingDelete)];
    let mut graph = small_graph();
    let probes = LinkProbes {
        junction_exists: |_: &str| true,
        link_valid: |_: &str| true,
        target_size: |_: &str| None,
    };
    let summary = annotate_graph(&mut graph, &config(0, Vec::new()), &migrations, &env(), &probes);
    assert!(!summary.incomplete);
    let n = at(&graph, fileref(20, 1));
    assert_eq!(n.scan_status, Some(ScanItemStatus::MigrationPending));
    assert_eq!(n.migration_id.as_deref(), Some("m1"));
    assert_eq!(n.linked_target_size_bytes, None);
}

#[test]
fn restored_migrations_decide_nothing() {
    let migrations =
        vec![migration("m1", "C:\\data", "D:\\gone", MigrationStatus::TargetPendingDelete)];
    let mut graph = small_graph();
    let probes = LinkProbes {
        junction_exists: |_: &str| false,
        link_valid: |_: &str| true,
        target_size: |_: &str| Some(1),
    };
    let summary = annotate_graph_with_skipped_records(
        &mut graph,
        &config(1, Vec::new()),
        &migrations,
        &env(),
        &probes,
        3,
    );
    assert!(summary.incomplete);
    let n = at(&graph, fileref(20, 1));
    assert_eq!(n.scan_status, None);
    assert!(!n.visible);
}

#[test]
fn the_later_of_equal_migrations_decides() {
    let migrations = vec![
        migration("a", "C:\\data", "D:\\a", MigrationStatus::Active),
        migration("b", "C:\\data", "D:\\b", MigrationStatus::Active),
    ];
    let mut graph = small_graph();
    annotate_graph_with_callbacks(
        &mut graph,
        &config(0, Vec::new()),
        &migrations,
        &env(),
        &|_| true,
        &|_| true,
        &|target| Some(target.len() as u64),
        0,
    );
    let n = at(&graph, fileref(20, 1));
    assert_eq!(n.migration_id.as_deref(), Some("b"));
    assert_eq!(n.linked_target_size_bytes, Some(4));
}

#[test]
fn presets_cover_their_directories() {
    let env = EnvVars {
        userprofile: Some("C:\\Users\\Ärzte".into()),
        localappdata: None,
        appdata: None,
    };
    let p = preset("%USERPROFILE%\\Cache");
    assert!(matches_preset("c:/users/ärzte/CACHE/", &p, &env));
    assert!(!matches_preset("c:\\users\\ärzte", &p, &env));
    assert!(!matches_preset("c:\\users\\ärzte\\cache2", &p, &env));
}

#[test]
fn annotating_again_changes_nothing() {
    let mut graph = make_graph(
        vec![
            node(5, "C:\\", 0, 900, None, false),
            node(10, "C:\\cache", 1, 500, None, false),
            node(11, "C:\\moved", 1, 0, Some(1), false),
            node(12, "C:\\dir", 1, 100, None, false),
            node(13, "C:\\dir\\link", 2, 0, Some(1), false),
            node(14, "C:\\gone", 1, 1, None, true),
        ],
        &[(5, 10), (5, 11), (5, 12), (12, 13), (5, 14)],
        5,
    );
    let cfg = config(1, vec![preset("C:\\cache")]);
    let migrations = [migration("m1", "C:\\moved", "D:\\t", MigrationStatus::Active)];
    let run = |graph: &mut DirectoryGraph| {
        let summary = annotate_graph_with_callbacks(
            graph,
            &cfg,
            &migrations,
            &env(),
            &|_: &str| true,
            &|_: &str| true,
            &|_: &str| Some(7u64),
            3,
        );
        (format!("{summary:?}"), format!("{:?}", graph.nodes.values()))
    };
    let first = run(&mut graph);
    assert_eq!(at(&graph, fileref(11, 1)).linked_target_size_bytes, Some(7));
    assert_eq!(at(&graph, fileref(12, 1)).scan_status, Some(ScanItemStatus::ContainsLink));
    assert_eq!(at(&graph, fileref(5, 1)).scan_status, Some(ScanItemStatus::ContainsMigrated));
    assert!(!at(&graph, fileref(14, 1)).visible);
    assert_eq!(run(&mut graph), first);
}
