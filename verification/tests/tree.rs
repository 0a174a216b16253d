use dayu_disk_manager::mft::FileRef;
use dayu_disk_manager::models::{AccessState, RootFileSummary, ScanItemStatus, ScanSource};
use dayu_disk_manager::pathmap::PathMap;
use dayu_disk_manager::refmap::RefMap;
use dayu_disk_manager::scanner::{
    materialize, DirectoryGraph, DirectoryNode, GraphDiagnostics, TreeStore,
};

fn fr(no: u64) -> FileRef {
    FileRef {
        record_no: no,
        sequence: 1,
    }
}
fn vnode(no: u64, path: &str, depth: u32, size: u64) -> DirectoryNode {
    DirectoryNode {
        file_ref: fr(no),
        path: path.into(),
        display_name: path.rsplit('\\').next().unwrap_or(path).into(),
        depth,
        reparse_tag: None,
        is_junction: false,
        direct_file_size_bytes: 0,
        direct_file_count: 0,
        direct_dir_count: 0,
        subtree_size_bytes: size,
        subtree_file_count: 0,
        subtree_dir_count: 1,
        excluded: false,
        reachable_from_root: true,
        matched_preset: None,
        category: None,
        auto_migrate: false,
        access_state: AccessState::Unknown,
        scan_status: None,
        migration_id: None,
        linked_target_size_bytes: None,
        visible: true,
    }
}

fn graph(nodes: Vec<DirectoryNode>, edges: &[(u64, u64)]) -> DirectoryGraph {
    let mut nm = RefMap::new();
    for n in nodes {
        nm.insert(n.file_ref, n);
    }
    let mut children: RefMap<Vec<FileRef>> = RefMap::new();
    for &(p, c) in edges {
        let mut kids = children.get(&fr(p)).cloned().unwrap_or_default();
        kids.push(fr(c));
        children.insert(fr(p), kids);
    }
    DirectoryGraph {
        nodes: nm,
        root: fr(5),
        children,
        system_metadata_size_bytes: 0,
        diagnostics: GraphDiagnostics::none(),
        excluded_subtree_size_bytes: 0,
    }
}

fn empty_summary() -> RootFileSummary {
    RootFileSummary {
        direct_file_size_bytes: 0,
        direct_file_count: 0,
        system_metadata_size_bytes: None,
        total_known_size_bytes: 0,
        incomplete: false,
    }
}

#[test]
fn materialize_filters_invisible_nodes() {
    let mut b = vnode(11, r"C:\B", 1, 200);
    b.visible = false;
    let g = graph(vec![vnode(10, r"C:\A", 1, 100), b], &[(5, 10), (5, 11)]);
    let store = materialize(&g, empty_summary(), ScanSource::Mft, "s1".into());
    assert!(store.node(r"C:\A").is_some());
    assert!(
        store.node(r"C:\B").is_none());
    let roots: Vec<String> = store.roots().into_iter().map(|n| n.path).collect();
    assert_eq!(roots, vec![r"C:\A".to_string()]);
}

#[test]
fn materialize_size_descending_with_path_tiebreak() {
    let d = vnode(20, r"C:\D", 1, 200);
    let a = vnode(21, r"C:\A", 1, 100);
    let b = vnode(22, r"C:\B", 1, 100);
    let c = vnode(23, r"C:\C", 1, 100);
    let g = graph(vec![d, a, b, c], &[(5, 20), (5, 21), (5, 22), (5, 23)]);
    let store = materialize(&g, empty_summary(), ScanSource::Mft, "s1".into());
    let roots: Vec<String> = store.roots().into_iter().map(|n| n.path).collect();
    assert_eq!(
        roots,
        vec![
            r"C:\D".to_string(),
            r"C:\A".to_string(),
            r"C:\B".to_string(),
            r"C:\C".to_string()
        ]
    );
}

#[test]
fn materialize_child_count_and_filtered_count() {
    let a = vnode(30, r"C:\A", 1, 500);
    let a1 = vnode(31, r"C:\A\A1", 2, 100);
    let mut a2 = vnode(32, r"C:\A\A2", 2, 50);
    a2.visible = false;
    let mut a3 = vnode(33, r"C:\A\A3", 2, 50);
    a3.visible = false;
    a3.excluded = true;
    let g = graph(
        vec![a, a1, a2, a3],
        &[(5, 30), (30, 31), (30, 32), (30, 33)],
    );
    let store = materialize(&g, empty_summary(), ScanSource::Mft, "s1".into());
    let node_a = store.node(r"C:\A").unwrap();
    assert_eq!(node_a.child_count, 1);
    assert_eq!(node_a.filtered_child_count, 1);
}

#[test]
fn materialize_recommended_eligibility() {
    let mut a = vnode(40, r"C:\A", 1, 100);
    a.matched_preset = Some("p1".into());
    let mut b = vnode(41, r"C:\B", 1, 100);
    b.matched_preset = Some("p1".into());
    b.scan_status = Some(ScanItemStatus::Migrated);
    let mut c = vnode(42, r"C:\C", 1, 100);
    c.matched_preset = Some("p1".into());
    c.reparse_tag = Some(0xA0000003);
    let mut d = vnode(43, r"C:\D", 1, 100);
    d.matched_preset = Some("p1".into());
    d.access_state = AccessState::Inaccessible;
    let e = vnode(44, r"C:\E", 1, 100);
    let g = graph(
        vec![a, b, c, d, e],
        &[(5, 40), (5, 41), (5, 42), (5, 43), (5, 44)],
    );
    let store = materialize(&g, empty_summary(), ScanSource::Mft, "s1".into());
    let rec: Vec<String> = store.recommended().into_iter().map(|n| n.path).collect();
    assert_eq!(rec, vec![r"C:\A".to_string()]);
}

#[test]
fn materialize_roots_and_filtered_root_count() {
    let a = vnode(50, r"C:\A", 1, 100);
    let mut b = vnode(51, r"C:\B", 1, 50);
    b.visible = false;
    let mut c = vnode(52, r"C:\C", 1, 50);
    c.visible = false;
    c.excluded = true;
    let g = graph(vec![a, b, c], &[(5, 50), (5, 51), (5, 52)]);
    let store = materialize(&g, empty_summary(), ScanSource::Mft, "s1".into());
    let roots: Vec<String> = store.roots().into_iter().map(|n| n.path).collect();
    assert_eq!(roots, vec![r"C:\A".to_string()]);
    assert_eq!(
        store.filtered_root_count(),
        1);
}

#[test]
fn children_page_limit_clamp() {
    let mut nodes = Vec::new();
    let mut edges = Vec::new();
    for i in 0..501u64 {
        let path = format!(r"C:\N{}", i);
        nodes.push(vnode(100 + i, &path, 1, 1000 - i));
        edges.push((5, 100 + i));
    }
    let g = graph(nodes, &edges);
    let store = materialize(&g, empty_summary(), ScanSource::Mft, "s1".into());
    let p1 = store.children_page(r"C:\", 0, 0);
    assert_eq!(p1.items.len(), 1);
    let p500 = store.children_page(r"C:\", 0, 1000);
    assert_eq!(p500.items.len(), 500);
    assert_eq!(p500.total, 501);
    assert_eq!(p500.next_offset, Some(500));
}

#[test]
fn children_page_offset_boundary() {
    let a = vnode(60, r"C:\A", 1, 300);
    let b = vnode(61, r"C:\B", 1, 200);
    let c = vnode(62, r"C:\C", 1, 100);
    let g = graph(vec![a, b, c], &[(5, 60), (5, 61), (5, 62)]);
    let store = materialize(&g, empty_summary(), ScanSource::Mft, "s1".into());
    let over = store.children_page(r"C:\", 3, 10);
    assert_eq!(over.items.len(), 0);
    assert_eq!(over.total, 3);
    assert_eq!(over.next_offset, None);
    let mid = store.children_page(r"C:\", 1, 1);
    assert_eq!(mid.items.len(), 1);
    assert_eq!(mid.items[0].path, r"C:\B");
    assert_eq!(mid.next_offset, Some(2));
}

#[test]
fn reveal_pages_cross_page_chain() {
    let a = vnode(70, r"C:\A", 1, 300);
    let b = vnode(71, r"C:\A\B", 2, 200);
    let t = vnode(72, r"C:\A\B\Target", 3, 100);
    let g = graph(vec![a, b, t], &[(5, 70), (70, 71), (71, 72)]);
    let store = materialize(&g, empty_summary(), ScanSource::Mft, "s1".into());
    let levels = store.reveal_pages(r"C:\A\B\Target", 100).unwrap();
    assert_eq!(levels.len(), 3);
    assert_eq!(levels[0].parent_path, r"c:\");
    assert!(levels[0].page.items.iter().any(|n| n.path == r"C:\A"));
    assert_eq!(levels[1].parent_path, r"C:\A");
    assert!(levels[1].page.items.iter().any(|n| n.path == r"C:\A\B"));
    assert_eq!(levels[2].parent_path, r"C:\A\B");
    assert!(levels[2]
        .page
        .items
        .iter()
        .any(|n| n.path == r"C:\A\B\Target"));
}

#[test]
fn the_root_is_no_level_of_its_own() {
    let g = graph(
        vec![vnode(5, r"C:\", 0, 100), vnode(10, r"C:\A", 1, 100), vnode(11, r"C:\A\B", 2, 50)],
        &[(5, 10), (10, 11)],
    );
    let store = materialize(&g, empty_summary(), ScanSource::Mft, "s1".into());
    let levels = store.reveal_pages(r"C:\A", 100).unwrap();
    assert_eq!(levels.len(), 1);
    assert_eq!(levels[0].parent_path, r"c:\");
    let paths: Vec<&str> = levels[0].page.items.iter().map(|n| n.path.as_str()).collect();
    assert_eq!(paths, vec![r"C:\A"]);
    let levels = store.reveal_pages(r"C:\A\B", 100).unwrap();
    assert_eq!(levels.len(), 2);
    assert_eq!(levels[0].parent_path, r"c:\");
    assert_eq!(levels[1].parent_path, r"C:\A");
    assert_eq!(levels[1].page.items[0].path, r"C:\A\B");
}

#[test]
fn reveal_pages_missing_target_returns_error() {
    let a = vnode(80, r"C:\A", 1, 100);
    let g = graph(vec![a], &[(5, 80)]);
    let store = materialize(&g, empty_summary(), ScanSource::Mft, "s1".into());
    assert!(store.reveal_pages(r"C:\Nope", 100).is_err());
}

#[test]
fn reveal_pages_locates_target_off_first_page() {
    let mut nodes = Vec::new();
    let mut edges = Vec::new();
    for i in 0..250u64 {
        let path = format!(r"C:\D{}", i);
        nodes.push(vnode(200 + i, &path, 1, 1000 - i));
        edges.push((5, 200 + i));
    }
    let target_path = format!(r"C:\D{}", 199);
    let g = graph(nodes, &edges);
    let store = materialize(&g, empty_summary(), ScanSource::Mft, "s1".into());
    let levels = store.reveal_pages(&target_path, 100).unwrap();
    assert_eq!(levels.len(), 1);
    assert_eq!(levels[0].parent_path, r"c:\");
    assert_eq!(levels[0].page.items.len(), 100);
    assert!(
        levels[0].page.items.iter().any(|n| n.path == target_path));
    assert!(
        !levels[0].page.items.iter().any(|n| n.path == r"C:\D0"));
}

#[test]
fn children_page_limit_clamp_preserves_total() {
    let a = vnode(90, r"C:\A", 1, 300);
    let b = vnode(91, r"C:\B", 1, 200);
    let c = vnode(92, r"C:\C", 1, 100);
    let g = graph(vec![a, b, c], &[(5, 90), (5, 91), (5, 92)]);
    let store = materialize(&g, empty_summary(), ScanSource::Mft, "s1".into());
    let page = store.children_page(r"C:\", 0, 10000);
    assert_eq!(page.items.len(), 3);
    assert_eq!(page.total, 3);
    assert_eq!(page.next_offset, None);
    let page1 = store.children_page(r"C:\", 0, 0);
    assert_eq!(page1.items.len(), 1);
    assert_eq!(page1.total, 3);
}

#[test]
fn pages_cover_every_child_once() {
    let mut nodes = Vec::new();
    let mut edges = Vec::new();
    for i in 0..25u64 {
        nodes.push(vnode(200 + i, &format!(r"C:\D{}", i), 1, 1000 - i));
        edges.push((5, 200 + i));
    }
    let g = graph(nodes, &edges);
    let store = materialize(&g, empty_summary(), ScanSource::Mft, "s1".into());
    let mut seen = Vec::new();
    let mut offset = Some(0);
    while let Some(o) = offset {
        let page = store.children_page(r"c:/", o, 7);
        seen.extend(page.items.into_iter().map(|n| n.path));
        offset = page.next_offset;
    }
    let expected: Vec<String> = (0..25u64).map(|i| format!(r"C:\D{}", i)).collect();
    assert_eq!(seen, expected);
}

#[test]
fn circular_parents_are_reported() {
    let mut nodes = PathMap::new();
    let mut parent = PathMap::new();
    let g = graph(vec![vnode(1, r"C:\A", 1, 1), vnode(2, r"C:\B", 1, 1)], &[(5, 1), (5, 2)]);
    let store = materialize(&g, empty_summary(), ScanSource::Mft, "s1".into());
    nodes.insert(r"c:\a".to_string(), store.node(r"C:\A").unwrap().clone());
    nodes.insert(r"c:\b".to_string(), store.node(r"C:\B").unwrap().clone());
    parent.insert(r"c:\a".to_string(), r"c:\b".to_string());
    parent.insert(r"c:\b".to_string(), r"c:\a".to_string());
    let store = TreeStore::from_parts(
        "s2".into(),
        ScanSource::Mft,
        empty_summary(),
        nodes,
        PathMap::new(),
        parent,
        Vec::new(),
        0,
        Vec::new(),
    );
    let err = store.reveal_pages(r"C:\A", 10).unwrap_err();
    assert!(err.describe().contains(r"C:\A"), "{}", err.describe());
}
