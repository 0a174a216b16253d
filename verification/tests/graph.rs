use dayu_disk_manager::mft::{FileRef, MftIndex, MftName, MftRecord};
use dayu_disk_manager::paths::{is_path_excluded, EnvVars};
use dayu_disk_manager::scanner::{build_graph, DirectoryGraph, DirectoryNode};
use std::collections::HashMap;

fn env() -> EnvVars {
    EnvVars { userprofile: None, localappdata: None, appdata: None }
}

fn at(g: &DirectoryGraph, r: FileRef) -> &DirectoryNode {
    g.nodes.get(&r).unwrap()
}

const NAMESPACE_WIN32: u8 = 1;

fn fileref(no: u64, seq: u16) -> FileRef {
    FileRef {
        record_no: no,
        sequence: seq,
    }
}

fn mk_name(parent_rec: u64, parent_seq: u16, name: &str) -> MftName {
    MftName {
        parent: fileref(parent_rec, parent_seq),
        name: name.to_string(),
        namespace: NAMESPACE_WIN32,
    }
}

fn mk_dir(record_no: u64, sequence: u16, parent: FileRef, name: &str) -> MftRecord {
    MftRecord {
        id: fileref(record_no, sequence),
        base_record: None,
        names: vec![mk_name(parent.record_no, parent.sequence, name)],
        logical_size: 0,
        is_dir: true,
        in_use: true,
        reparse_tag: None,
        has_nonresident_attr_list: false,
    }
}

fn mk_file(
    record_no: u64,
    sequence: u16,
    parent: FileRef,
    name: &str,
    logical_size: u64,
) -> MftRecord {
    MftRecord {
        id: fileref(record_no, sequence),
        base_record: None,
        names: vec![mk_name(parent.record_no, parent.sequence, name)],
        logical_size,
        is_dir: false,
        in_use: true,
        reparse_tag: None,
        has_nonresident_attr_list: false,
    }
}

fn mk_index(records: Vec<MftRecord>) -> MftIndex {
    let mut map = HashMap::new();
    for r in records {
        map.insert(r.id.record_no, r);
    }
    MftIndex {
        records: map,
        scanned_records: 0,
        skipped_records: 0,
        scanned_files: 0,
        hard_link_entries: 0,
        unresolved_extensions: 0,
    }
}

fn root_record() -> MftRecord {
    MftRecord {
        id: fileref(5, 5),
        base_record: None,
        names: vec![mk_name(5, 5, ".")],
        logical_size: 0,
        is_dir: true,
        in_use: true,
        reparse_tag: None,
        has_nonresident_attr_list: false,
    }
}

#[test]
fn graph_construction_is_order_independent() {
    let mk = |order: &[u64]| -> MftIndex {
        let mut records = Vec::new();
        for &rn in order {
            let r = match rn {
                5 => root_record(),
                20 => mk_dir(20, 1, fileref(5, 5), "Users"),
                30 => mk_dir(30, 1, fileref(20, 1), "alice"),
                31 => mk_dir(31, 1, fileref(30, 1), "docs"),
                40 => mk_file(40, 1, fileref(30, 1), "a.txt", 500),
                41 => mk_file(41, 1, fileref(31, 1), "b.txt", 300),
                50 => mk_file(50, 1, fileref(5, 5), "root.txt", 100),
                _ => unreachable!(),
            };
            records.push(r);
        }
        mk_index(records)
    };

    let parent_first = mk(&[5, 20, 30, 31, 40, 41, 50]);
    let child_first = mk(&[50, 41, 40, 31, 30, 20, 5]);
    let random = mk(&[30, 5, 41, 20, 50, 31, 40]);

    let g1 = build_graph(&parent_first, &[], 'C', &env());
    let g2 = build_graph(&child_first, &[], 'C', &env());
    let g3 = build_graph(&random, &[], 'C', &env());
    assert_eq!(g1.nodes.len(), g2.nodes.len());
    assert_eq!(g1.nodes.len(), g3.nodes.len());
    assert_eq!(g1.nodes.len(), 4);
    for key in [
        fileref(20, 1),
        fileref(30, 1),
        fileref(31, 1),
        fileref(5, 5),
    ] {
        assert_eq!(
            at(&g1, key).path, at(&g2, key).path, "{:?}", key);
        assert_eq!(
            at(&g1, key).path, at(&g3, key).path, "{:?}", key);
        assert_eq!(
            at(&g1, key).depth, at(&g2, key).depth, "{:?}", key);
        assert_eq!(
            at(&g1, key).subtree_size_bytes, at(&g2, key).subtree_size_bytes, "{:?}", key);
        assert_eq!(
            at(&g1, key).subtree_file_count, at(&g2, key).subtree_file_count, "{:?}", key);
        assert_eq!(
            at(&g1, key).subtree_dir_count, at(&g2, key).subtree_dir_count, "{:?}", key);
    }
    assert_eq!(at(&g1, fileref(5, 5)).direct_file_size_bytes, 100);
    assert_eq!(at(&g1, fileref(5, 5)).direct_file_count, 1);
    assert_eq!(at(&g1, fileref(30, 1)).direct_file_size_bytes, 500);
    assert_eq!(at(&g1, fileref(31, 1)).direct_file_size_bytes, 300);
    assert_eq!(at(&g1, fileref(31, 1)).subtree_size_bytes, 300);
    assert_eq!(at(&g1, fileref(31, 1)).subtree_file_count, 1);
    assert_eq!(at(&g1, fileref(30, 1)).subtree_size_bytes, 800);
    assert_eq!(at(&g1, fileref(30, 1)).subtree_file_count, 2);
    assert_eq!(at(&g1, fileref(30, 1)).subtree_dir_count, 2);
    assert_eq!(at(&g1, fileref(20, 1)).subtree_size_bytes, 800);
    assert_eq!(at(&g1, fileref(5, 5)).subtree_size_bytes, 900);
    assert_eq!(at(&g1, fileref(5, 5)).subtree_file_count, 3);
    assert_eq!(at(&g1, fileref(5, 5)).subtree_dir_count, 4);
}

#[test]
fn stale_sequence_dirs_do_not_pollute_new_dir() {
    let records = vec![
        root_record(),
        mk_dir(20, 1, fileref(5, 5), "Users"),
        MftRecord {
            id: fileref(30, 1),
            base_record: None,
            names: vec![mk_name(20, 99, "ghost")],
            logical_size: 0,
            is_dir: true,
            in_use: true,
            reparse_tag: None,
            has_nonresident_attr_list: false,
        },
    ];
    let index = mk_index(records);
    let g = build_graph(&index, &[], 'C', &env());

    assert_eq!(g.diagnostics.stale_sequence_dirs, 1);
    assert!(!g.nodes.contains_key(&fileref(30, 1)));
    assert_eq!(g.diagnostics.unreachable_nodes, 1);
    assert!(!g.children.contains_key(&fileref(20, 1)));
    assert_eq!(at(&g, fileref(20, 1)).subtree_size_bytes, 0);
}

#[test]
fn stale_sequence_files_do_not_pollute_new_dir() {
    let records = vec![
        root_record(),
        mk_dir(20, 1, fileref(5, 5), "Users"),
        MftRecord {
            id: fileref(40, 1),
            base_record: None,
            names: vec![mk_name(20, 99, "stale_file.txt")],
            logical_size: 999,
            is_dir: false,
            in_use: true,
            reparse_tag: None,
            has_nonresident_attr_list: false,
        },
    ];
    let index = mk_index(records);
    let g = build_graph(&index, &[], 'C', &env());

    assert_eq!(g.diagnostics.stale_sequence_files, 1);
    assert_eq!(at(&g, fileref(20, 1)).direct_file_size_bytes, 0);
    assert_eq!(at(&g, fileref(20, 1)).direct_file_count, 0);
}

#[test]
fn excluded_subtree_does_not_aggregate_into_ancestors() {
    let records = vec![
        root_record(),
        mk_dir(20, 1, fileref(5, 5), "Users"),
        mk_dir(30, 1, fileref(20, 1), "alice"),
        mk_dir(31, 1, fileref(30, 1), "docs"),
        mk_file(40, 1, fileref(31, 1), "file.txt", 1000),
        mk_file(50, 1, fileref(20, 1), "shared.txt", 200),
    ];
    let index = mk_index(records);
    let g = build_graph(&index, &["C:\\Users\\alice".to_string()], 'C', &env());

    assert!(at(&g, fileref(30, 1)).excluded);
    assert!(at(&g, fileref(31, 1)).excluded);
    assert!(g.excluded_subtree_size_bytes >= 1000);
    assert_eq!(at(&g, fileref(20, 1)).subtree_size_bytes, 200);
    assert_eq!(at(&g, fileref(5, 5)).subtree_size_bytes, 200);
}

#[test]
fn deep_chain_does_not_stack_overflow() {
    const DEPTH: u64 = 10_000;
    let mut records = vec![root_record()];
    let mut prev = fileref(5, 5);
    for i in 0..DEPTH {
        let r = mk_dir(i + 100, 1, prev, &format!("d{i}"));
        prev = r.id;
        records.push(r);
    }
    let index = mk_index(records);
    let g = build_graph(&index, &[], 'C', &env());
    assert!(at(&g, fileref(100 + DEPTH - 1, 1)).reachable_from_root);
    assert_eq!(at(&g, fileref(100 + DEPTH - 1, 1)).depth, DEPTH as u32);
    assert!(at(&g, fileref(100 + DEPTH - 1, 1))
        .path
        .starts_with("C:\\"));
}

#[test]
fn cycle_does_not_hang() {
    let records = vec![
        root_record(),
        MftRecord {
            id: fileref(20, 1),
            base_record: None,
            names: vec![
                mk_name(5, 5, "A"),
                mk_name(20, 1, "self"),
            ],
            logical_size: 0,
            is_dir: true,
            in_use: true,
            reparse_tag: None,
            has_nonresident_attr_list: false,
        },
    ];
    let index = mk_index(records);
    let g = build_graph(&index, &[], 'C', &env());
    assert_eq!(g.diagnostics.cycle_nodes, 1);
    assert!(at(&g, fileref(20, 1)).reachable_from_root);
    assert!(at(&g, fileref(20, 1)).path.ends_with("A"));
}

#[test]
fn cycle_mutual_reference_does_not_hang() {
    let records = vec![
        root_record(),
        MftRecord {
            id: fileref(20, 1),
            base_record: None,
            names: vec![mk_name(21, 1, "A")],
            logical_size: 0,
            is_dir: true,
            in_use: true,
            reparse_tag: None,
            has_nonresident_attr_list: false,
        },
        MftRecord {
            id: fileref(21, 1),
            base_record: None,
            names: vec![mk_name(20, 1, "B")],
            logical_size: 0,
            is_dir: true,
            in_use: true,
            reparse_tag: None,
            has_nonresident_attr_list: false,
        },
    ];
    let index = mk_index(records);
    let g = build_graph(&index, &[], 'C', &env());
    assert!(!g.nodes.contains_key(&fileref(20, 1)));
    assert!(!g.nodes.contains_key(&fileref(21, 1)));
    assert!(g.diagnostics.unreachable_nodes >= 2);
}

#[test]
fn missing_parent_does_not_hang_and_counts() {
    let records = vec![
        root_record(),
        MftRecord {
            id: fileref(20, 1),
            base_record: None,
            names: vec![mk_name(99, 1, "orphan")],
            logical_size: 0,
            is_dir: true,
            in_use: true,
            reparse_tag: None,
            has_nonresident_attr_list: false,
        },
    ];
    let index = mk_index(records);
    let g = build_graph(&index, &[], 'C', &env());

    assert_eq!(g.diagnostics.missing_parent, 1);
    assert!(!g.nodes.contains_key(&fileref(20, 1)));
    assert_eq!(g.diagnostics.unreachable_nodes, 1);
    assert!(!g.children.contains_key(&fileref(5, 5)));
}

#[test]
fn root_direct_files_and_child_subtree_are_separate() {
    let records = vec![
        root_record(),
        mk_file(40, 1, fileref(5, 5), "at_root.txt", 777),
        mk_dir(20, 1, fileref(5, 5), "Users"),
        mk_file(50, 1, fileref(20, 1), "in_users.bin", 333),
    ];
    let index = mk_index(records);
    let g = build_graph(&index, &[], 'C', &env());

    let root = &at(&g, fileref(5, 5));
    assert_eq!(root.direct_file_size_bytes, 777);
    assert_eq!(root.direct_file_count, 1);
    assert_eq!(root.direct_dir_count, 1);
    assert_eq!(root.subtree_size_bytes, 777 + 333);
    assert_eq!(root.subtree_file_count, 2);
    assert_eq!(root.subtree_dir_count, 2);

    let dir20 = &at(&g, fileref(20, 1));
    assert_eq!(dir20.direct_file_size_bytes, 333);
    assert_eq!(dir20.direct_file_count, 1);
    assert_eq!(dir20.direct_dir_count, 0);
    assert_eq!(dir20.subtree_size_bytes, 333);
}

#[test]
fn duplicate_dir_entry_counted_when_multiple_parents() {
    let records = vec![
        root_record(),
        mk_dir(20, 1, fileref(5, 5), "A"),
        mk_dir(21, 1, fileref(5, 5), "B"),
        MftRecord {
            id: fileref(30, 1),
            base_record: None,
            names: vec![mk_name(20, 1, "shared_in_a"), mk_name(21, 1, "shared_in_b")],
            logical_size: 0,
            is_dir: true,
            in_use: true,
            reparse_tag: None,
            has_nonresident_attr_list: false,
        },
    ];
    let index = mk_index(records);
    let g = build_graph(&index, &[], 'C', &env());

    assert_eq!(g.diagnostics.duplicate_dir_entry, 1);
    assert!(g.children.contains_key(&fileref(20, 1)));
    assert_eq!(g.children.get(&fileref(20, 1)).unwrap().len(), 1);
    assert!(!g.children.contains_key(&fileref(21, 1)));
}

#[test]
fn system_metadata_size_aggregated_excluding_root() {
    let records = vec![
        root_record(),
        MftRecord {
            id: fileref(0, 1),
            base_record: None,
            names: vec![],
            logical_size: 1000,
            is_dir: false,
            in_use: true,
            reparse_tag: None,
            has_nonresident_attr_list: false,
        },
        MftRecord {
            id: fileref(1, 1),
            base_record: None,
            names: vec![],
            logical_size: 2000,
            is_dir: false,
            in_use: true,
            reparse_tag: None,
            has_nonresident_attr_list: false,
        },
        MftRecord {
            id: fileref(11, 11),
            base_record: None,
            names: vec![],
            logical_size: 0,
            is_dir: true,
            in_use: true,
            reparse_tag: None,
            has_nonresident_attr_list: false,
        },
    ];
    let index = mk_index(records);
    let g = build_graph(&index, &[], 'C', &env());

    assert_eq!(g.system_metadata_size_bytes, 1000 + 2000);
    assert_eq!(at(&g, fileref(5, 5)).direct_file_size_bytes, 0);
}

#[test]
fn root_missing_sets_diagnostic() {
    let records = vec![mk_dir(10, 1, fileref(5, 5), "Users")];
    let index = mk_index(records);
    let g = build_graph(&index, &[], 'C', &env());

    assert!(g.diagnostics.root_missing);
    assert!(g.nodes.len() == 0);
}
#[test]
fn root_missing_with_non_system_dir_clears_nodes() {
    let records = vec![
        mk_dir(20, 1, fileref(5, 5), "Users"),
        mk_dir(30, 1, fileref(20, 1), "alice"),
        mk_file(40, 1, fileref(30, 1), "f.txt", 999),
    ];
    let index = mk_index(records);
    let g = build_graph(&index, &[], 'C', &env());

    assert!(g.diagnostics.root_missing);
    assert!(g.nodes.len() == 0);
    assert!(g.children.len() == 0);
}
#[test]
fn cycle_three_nodes_do_not_backflow_files_to_reachable_parent() {
    let records = vec![
        root_record(),
        mk_dir(22, 1, fileref(5, 5), "A"),
        mk_dir(30, 1, fileref(22, 1), "B"),
        MftRecord {
            id: fileref(33, 1),
            base_record: None,
            names: vec![
                mk_name(30, 1, "C"),
                mk_name(22, 1, "C_dup"),
            ],
            logical_size: 0,
            is_dir: true,
            in_use: true,
            reparse_tag: None,
            has_nonresident_attr_list: false,
        },
        mk_file(80, 1, fileref(33, 1), "big.bin", 500),
    ];
    let index = mk_index(records);
    let g = build_graph(&index, &[], 'C', &env());
    assert_eq!(g.diagnostics.duplicate_dir_entry, 1);
    assert_eq!(g.diagnostics.cycle_nodes, 0);
    let c_node = &at(&g, fileref(33, 1));
    let b_node = &at(&g, fileref(30, 1));
    let a_node = &at(&g, fileref(22, 1));
    let root = &at(&g, fileref(5, 5));
    assert_eq!(c_node.subtree_size_bytes, 500);
    assert_eq!(b_node.subtree_size_bytes, 500);
    assert_eq!(a_node.subtree_size_bytes, 500);
    assert_eq!(root.subtree_size_bytes, 500);
    assert_eq!(g.diagnostics.unreachable_nodes, 0);
}
#[test]
fn excluded_subtree_size_includes_nonexcluded_child_subdir_bytes() {
    let records = vec![
        root_record(),
        mk_dir(20, 1, fileref(5, 5), "Users"),
        mk_dir(30, 1, fileref(20, 1), "alice"),
        mk_dir(31, 1, fileref(30, 1), "docs"),
        mk_file(40, 1, fileref(31, 1), "file.txt", 1000),
        mk_dir(32, 1, fileref(30, 1), "pic"),
        mk_file(41, 1, fileref(32, 1), "img.png", 200),
        mk_file(50, 1, fileref(30, 1), "readme.md", 100),
        mk_file(60, 1, fileref(20, 1), "shared.bin", 333),
    ];
    let index = mk_index(records);
    let g = build_graph(&index, &["C:\\Users\\alice".to_string()], 'C', &env());

    assert!(at(&g, fileref(30, 1)).excluded);
    assert!(at(&g, fileref(31, 1)).excluded);
    assert!(at(&g, fileref(32, 1)).excluded);
    assert_eq!(
        g.excluded_subtree_size_bytes, 1300);
    assert_eq!(at(&g, fileref(20, 1)).subtree_size_bytes, 333);
    assert_eq!(at(&g, fileref(5, 5)).subtree_size_bytes, 333);
}
#[test]
fn sibling_order_deterministic_by_record_no() {
    let records = vec![
        root_record(),
        mk_dir(99, 1, fileref(5, 5), "A"),
        mk_dir(22, 1, fileref(5, 5), "B"),
        mk_dir(30, 1, fileref(5, 5), "C"),
        mk_dir(77, 1, fileref(5, 5), "D"),
    ];
    let index = mk_index(records);
    let g1 = build_graph(&index, &[], 'C', &env());
    let g2 = build_graph(&index, &[], 'C', &env());
    let g3 = build_graph(&index, &[], 'C', &env());

    let root_kids1 = g1.children.get(&fileref(5, 5)).unwrap();
    let root_kids2 = g2.children.get(&fileref(5, 5)).unwrap();
    let root_kids3 = g3.children.get(&fileref(5, 5)).unwrap();

    assert_eq!(root_kids1, root_kids2);
    assert_eq!(root_kids1, root_kids3);
    assert_eq!(
        root_kids1,
        &vec![
            fileref(22, 1),
            fileref(30, 1),
            fileref(77, 1),
            fileref(99, 1),
        ]
    );
}
#[test]
fn non_dir_parent_diagnostics_are_recorded() {
    let records = vec![
        root_record(),
        MftRecord {
            id: fileref(20, 1),
            base_record: None,
            names: vec![],
            logical_size: 0,
            is_dir: false,
            in_use: true,
            reparse_tag: None,
            has_nonresident_attr_list: false,
        },
        MftRecord {
            id: fileref(30, 1),
            base_record: None,
            names: vec![mk_name(20, 1, "ghost_dir")],
            logical_size: 0,
            is_dir: true,
            in_use: true,
            reparse_tag: None,
            has_nonresident_attr_list: false,
        },
        MftRecord {
            id: fileref(40, 1),
            base_record: None,
            names: vec![mk_name(20, 1, "ghost_file")],
            logical_size: 999,
            is_dir: false,
            in_use: true,
            reparse_tag: None,
            has_nonresident_attr_list: false,
        },
    ];
    let index = mk_index(records);
    let g = build_graph(&index, &[], 'C', &env());
    assert_eq!(g.diagnostics.non_dir_parent_dirs, 1);
    assert_eq!(g.diagnostics.non_dir_parent_files, 1);
}
#[test]
fn cycle_nodes_deduped_across_multiple_reverse_edges() {
    let records = vec![
        root_record(),
        MftRecord {
            id: fileref(22, 1),
            base_record: None,
            names: vec![
                mk_name(5, 5, "A"),
                mk_name(22, 1, "self1"),
                mk_name(22, 1, "self2"),
            ],
            logical_size: 0,
            is_dir: true,
            in_use: true,
            reparse_tag: None,
            has_nonresident_attr_list: false,
        },
    ];
    let index = mk_index(records);
    let g = build_graph(&index, &[], 'C', &env());
    assert_eq!(
        g.diagnostics.cycle_nodes, 1);
    assert!(g.nodes.contains_key(&fileref(22, 1)));
}
#[test]
fn cycle_nodes_self_ref_counted_once_per_record() {
    let records = vec![
        root_record(),
        MftRecord {
            id: fileref(30, 1),
            base_record: None,
            names: vec![
                mk_name(30, 1, "self1"),
                mk_name(30, 1, "self2"),
                mk_name(30, 1, "self3"),
            ],
            logical_size: 0,
            is_dir: true,
            in_use: true,
            reparse_tag: None,
            has_nonresident_attr_list: false,
        },
    ];
    let index = mk_index(records);
    let g = build_graph(&index, &[], 'C', &env());
    assert_eq!(g.diagnostics.cycle_nodes, 1);
}
#[test]
fn orphan_entries_field_removed() {
    let records = vec![
        root_record(),
        MftRecord {
            id: fileref(20, 1),
            base_record: None,
            names: vec![mk_name(99, 1, "orphan_dir")],
            logical_size: 0,
            is_dir: true,
            in_use: true,
            reparse_tag: None,
            has_nonresident_attr_list: false,
        },
    ];
    let index = mk_index(records);
    let g = build_graph(&index, &[], 'C', &env());
    assert_eq!(g.diagnostics.unreachable_nodes, 1);
}
#[test]
fn directory_node_reparse_tag_only_no_is_reparse() {
    let mut rec = root_record();
    rec.reparse_tag = Some(0xA0000001);
    let records = vec![rec];
    let index = mk_index(records);
    let g = build_graph(&index, &[], 'C', &env());
    assert_eq!(
        at(&g, fileref(5, 5)).reparse_tag,
        Some(0xA0000001));
}

#[test]
fn is_path_excluded_matches_scancontext_semantics() {
    let exclude = vec!["c:\\users\\alice".to_string(), "c:\\windows".to_string()];
    assert!(is_path_excluded("c:\\users\\alice", &exclude));
    assert!(is_path_excluded("c:\\users\\alice\\docs", &exclude));
    assert!(!is_path_excluded("c:\\users\\alice-backup", &exclude));
    assert!(!is_path_excluded("c:\\program files", &exclude));
}

#[test]
fn children_follow_their_parents() {
    let index = mk_index(vec![
        root_record(),
        mk_dir(20, 1, fileref(5, 5), "Users"),
        mk_dir(21, 1, fileref(5, 5), "Temp"),
        mk_dir(30, 1, fileref(20, 1), "alice"),
        mk_dir(31, 1, fileref(30, 1), "docs"),
        mk_dir(40, 1, fileref(41, 1), "lost"),
        mk_dir(41, 1, fileref(40, 1), "found"),
    ]);
    let g = build_graph(&index, &["C:\\Temp".to_string()], 'C', &env());
    assert_eq!(at(&g, g.root).path, "C:\\");
    assert_eq!(at(&g, g.root).depth, 0);
    assert_eq!(g.nodes.len(), 5);
    let mut listed = Vec::new();
    for n in g.nodes.values() {
        assert!(n.reachable_from_root);
        let kids = g.children.get(&n.file_ref).cloned().unwrap_or_default();
        assert_eq!(n.direct_dir_count as usize, kids.len());
        for k in kids {
            let c = at(&g, k);
            assert_eq!(c.depth, n.depth + 1);
            let gap = if n.path.ends_with('\\') { "" } else { "\\" };
            assert_eq!(c.path, format!("{}{}{}", n.path, gap, c.display_name));
            assert!(!listed.contains(&k));
            listed.push(k);
        }
    }
    assert_eq!(listed.len(), 4);
    assert_eq!(at(&g, fileref(31, 1)).path, "C:\\Users\\alice\\docs");
    assert_eq!(at(&g, fileref(31, 1)).depth, 3);
}
