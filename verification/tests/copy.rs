use dayu_disk_manager::copy_tree::{
    classify, child_rel, still_plain, CopyScan, CopyTally, ManifestScan, Visit,
};
use dayu_disk_manager::error::AppError;
use dayu_disk_manager::file_ops::{
    diff_manifests, resolve_concurrency, CopyPhase, CopyProgress, Manifest, ManifestEntry,
};
use dayu_disk_manager::migrator::transfer_event;
use std::collections::BTreeMap;

#[test]
fn resolve_concurrency_defaults_to_available_cores_capped_at_8() {
    for cores in [1usize, 2, 7, 8, 9, 64] {
        let default = resolve_concurrency(None, cores);
        assert_eq!(default, cores.min(8));
        assert!(default >= 1);
    }
}

#[test]
fn resolve_concurrency_override_is_used_verbatim() {
    assert_eq!(resolve_concurrency(Some(1), 4), 1);
    assert_eq!(resolve_concurrency(Some(3), 4), 3);
}

/// A tree in memory: directories with the names in them, links, and files
/// with their sizes, by relative path.
#[derive(Default)]
struct Tree {
    dirs: BTreeMap<String, Vec<String>>,
    links: Vec<String>,
    files: BTreeMap<String, u64>,
}

impl Tree {
    fn new(dirs: &[(&str, &[&str])], links: &[&str], files: &[(&str, u64)]) -> Self {
        Tree {
            dirs: dirs
                .iter()
                .map(|(d, names)| (d.to_string(), names.iter().map(|n| n.to_string()).collect()))
                .collect(),
            links: links.iter().map(|l| l.to_string()).collect(),
            files: files.iter().map(|(f, n)| (f.to_string(), *n)).collect(),
        }
    }

    fn scan(&self, reports: &mut Vec<CopyProgress>) -> (Vec<String>, CopyTally) {
        let mut scan = CopyScan::start();
        while let Some(rel) = scan.next() {
            let is_link = self.links.contains(&rel);
            let is_dir = self.dirs.contains_key(&rel);
            let exists = is_link || is_dir || self.files.contains_key(&rel);
            match classify(&rel, exists, is_link, is_dir) {
                Visit::Skip => {}
                Visit::Placeholder => scan.add_placeholder(&rel),
                Visit::Directory => scan.add_directory(&rel, &self.dirs[&rel]),
                Visit::File => scan.add_file(&rel, self.files[&rel]),
            }
            reports.push(scan.progress());
        }
        scan.into_tally()
    }
}

fn sample() -> Tree {
    Tree::new(
        &[("", &["a.bin", "sub", "empty", "link", "gone.txt"]), ("sub", &["b.bin"]), ("empty", &[])],
        &["link"],
        &[("a.bin", 1024), ("sub/b.bin", 2048)],
    )
}

#[test]
fn copies_report_their_totals() {
    let mut reports = Vec::new();
    let tree = sample();
    let (tasks, mut tally) = tree.scan(&mut reports);
    assert!(reports.iter().all(|r| r.phase == CopyPhase::Preparing && r.percent() == 0));
    for rel in &tasks {
        tally.file_copied(rel, tree.files[rel], Ok(tree.files[rel]));
    }
    let last = tally.progress();
    assert_eq!(last.completed_bytes, 3072);
    assert_eq!(last.total_bytes, Some(3072));
    assert_eq!(last.completed_files, 2);
    assert_eq!(last.total_files, Some(2));
    assert_eq!(last.percent(), 100);
    assert!(last.current_path.is_none());
    let outcome = tally.finish(false, "C:/src", "D:/dst").unwrap();
    assert_eq!(outcome.total_bytes, 3072);
    assert_eq!(outcome.copied_manifest.root, "C:/src");
    assert_eq!(outcome.dst_manifest.root, "D:/dst");
    assert!(diff_manifests(&outcome.copied_manifest, &outcome.dst_manifest).is_empty());
    let mut paths: Vec<&str> =
        outcome.copied_manifest.entries.iter().map(|e| e.rel_path.as_str()).collect();
    paths.sort();
    assert_eq!(paths, vec!["a.bin", "empty", "link", "sub", "sub/b.bin"]);
}

#[test]
fn every_entry_is_copied_once_in_any_order() {
    let tree = Tree::new(
        &[
            ("", &["d", "f", "link"]),
            ("d", &["d", "f", "link"]),
            ("d/d", &["f"]),
        ],
        &["link", "d/link"],
        &[("f", 1), ("d/f", 20), ("d/d/f", 300)],
    );
    for reverse in [false, true] {
        let (mut tasks, mut tally) = tree.scan(&mut Vec::new());
        assert_eq!(tasks.len(), 3);
        if reverse {
            tasks.reverse();
        }
        for rel in &tasks {
            tally.file_copied(rel, tree.files[rel], Ok(tree.files[rel]));
        }
        let outcome = tally.finish(false, "s", "t").unwrap();
        assert_eq!((outcome.total_files, outcome.total_bytes), (3, 321));
        assert!(diff_manifests(&outcome.copied_manifest, &outcome.dst_manifest).is_empty());
        let mut found: Vec<(String, bool, u64)> = outcome
            .dst_manifest
            .entries
            .iter()
            .map(|e| (e.rel_path.clone(), e.is_dir, e.size))
            .collect();
        found.sort();
        let expected: Vec<(String, bool, u64)> = [
            ("d", true, 0),
            ("d/d", true, 0),
            ("d/d/f", false, 300),
            ("d/f", false, 20),
            ("d/link", true, 0),
            ("f", false, 1),
            ("link", true, 0),
        ]
        .iter()
        .map(|(p, d, n)| (p.to_string(), *d, *n))
        .collect();
        assert_eq!(found, expected);
    }
}

#[test]
fn links_are_not_followed_while_copying() {
    let (tasks, _) = sample().scan(&mut Vec::new());
    assert!(!tasks.iter().any(|t| t.starts_with("link")));
    assert_eq!(classify("", true, true, true), Visit::Directory);
    assert_eq!(classify("x", true, true, true), Visit::Placeholder);
    assert_eq!(classify("x", false, false, false), Visit::Skip);
    assert_eq!(child_rel("", "a"), "a");
    assert_eq!(child_rel("sub", "a"), "sub/a");
}

#[test]
fn damaged_copies_are_noticed() {
    let tree = sample();
    let (_, mut tally) = tree.scan(&mut Vec::new());
    tally.file_copied("a.bin", 1024, Ok(1000));
    tally.file_copied("sub/b.bin", 2048, Ok(2048));
    let outcome = tally.finish(false, "s", "d").unwrap();
    assert_eq!(
        diff_manifests(&outcome.copied_manifest, &outcome.dst_manifest),
        vec!["a.bin".to_string()]
    );
}

#[test]
fn the_first_failure_counts() {
    let (_, mut tally) = sample().scan(&mut Vec::new());
    assert!(!tally.stopped());
    tally.file_failed(AppError::Migrate("first".into()));
    tally.file_failed(AppError::Migrate("second".into()));
    assert!(tally.stopped());
    let e = tally.finish(true, "s", "d").unwrap_err();
    assert_eq!(e.describe(), "迁移失败: first");

    let (_, mut tally) = sample().scan(&mut Vec::new());
    tally.file_copied("a.bin", 1024, Err(AppError::Store("stat".into())));
    assert!(tally.stopped());
    assert!(matches!(tally.finish(false, "s", "d"), Err(AppError::Store(_))));
}

#[test]
fn cancelled_copies_end_as_cancelled() {
    let (_, tally) = sample().scan(&mut Vec::new());
    assert!(matches!(tally.finish(true, "s", "d"), Err(AppError::Cancelled)));
}

#[test]
fn progress_never_exceeds_the_total() {
    let (_, mut tally) = sample().scan(&mut Vec::new());
    let mut last = 0;
    for _ in 0..5 {
        tally.file_copied("a.bin", 1000, Ok(1000));
        let p = tally.progress();
        assert!(p.completed_bytes <= p.total_bytes.unwrap());
        assert!(p.completed_files <= p.total_files.unwrap());
        assert!(p.percent() >= last);
        assert!(p.percent() <= 100);
        last = p.percent();
    }
    assert_eq!(last, 100);
}

fn entry(rel: &str, is_dir: bool, size: u64) -> ManifestEntry {
    ManifestEntry { rel_path: rel.into(), is_dir, size, mtime: 0, attrs: 0 }
}

fn manifest(entries: Vec<ManifestEntry>) -> Manifest {
    Manifest { root: String::new(), entries }
}

#[test]
fn manifests_differ_by_path_kind_and_size() {
    let a = manifest(vec![entry("a", false, 5), entry("b", true, 0), entry("c", false, 1)]);
    let b = manifest(vec![entry("a", false, 6), entry("b", false, 0), entry("d", false, 1)]);
    let mut diffs = diff_manifests(&a, &b);
    diffs.sort();
    assert_eq!(diffs, vec!["a", "b", "c", "d"]);
    assert!(diff_manifests(&a, &a).is_empty());
    let mut touched = a.clone();
    touched.entries[0].mtime = 99;
    touched.entries.reverse();
    assert!(diff_manifests(&a, &touched).is_empty());
}

fn progress(done: u64, total: Option<u64>) -> CopyProgress {
    CopyProgress {
        phase: CopyPhase::Copying,
        completed_bytes: done,
        total_bytes: total,
        completed_files: 1,
        total_files: Some(4),
        current_path: Some("C:/a/b".into()),
    }
}

#[test]
fn percentages_go_by_bytes_and_else_by_files() {
    assert_eq!(progress(1, Some(3)).percent(), 33);
    assert_eq!(progress(1, Some(0)).percent(), 25);
    assert_eq!(progress(1, None).percent(), 25);
    assert_eq!(progress(9, Some(3)).percent(), 100);
    let mut empty = progress(0, None);
    empty.total_files = None;
    assert_eq!(empty.percent(), 100);
    empty.phase = CopyPhase::Preparing;
    assert_eq!(empty.percent(), 0);
}

#[test]
fn transfers_take_their_share_of_the_whole() {
    let e = transfer_event("t", "syncing", (80, 90), &progress(1, Some(2)), "prep", "copy");
    assert_eq!(e.task_id, "t");
    assert_eq!(e.stage, "syncing");
    assert_eq!(e.percent, 85);
    assert_eq!(e.message, "copy");
    let t = e.transfer.unwrap();
    assert_eq!(t.phase, "copying");
    assert_eq!(t.current_path.as_deref(), Some("C:\\a\\b"));
    let mut p = progress(1, Some(2));
    p.phase = CopyPhase::Preparing;
    let e = transfer_event("t", "syncing", (80, 90), &p, "prep", "copy");
    assert_eq!(e.percent, 80);
    assert_eq!(e.message, "prep");
    assert_eq!(e.transfer.unwrap().phase, "preparing");
}

#[test]
fn listings_hold_every_entry_but_the_root() {
    let tree = sample();
    let mut scan = ManifestScan::start();
    while let Some(spot) = scan.next() {
        let is_link = tree.links.contains(&spot.place);
        let is_dir = tree.dirs.contains_key(&spot.place);
        let exists = is_link || is_dir || tree.files.contains_key(&spot.place);
        match classify(&spot.rel, exists, is_link, is_dir) {
            Visit::Skip => {}
            Visit::Placeholder => scan.add_placeholder(&spot.rel),
            Visit::Directory => scan.add_directory(&spot, 7, 16, &tree.dirs[&spot.place]),
            Visit::File => scan.add_file(&spot.rel, tree.files[&spot.place], 9, 32),
        }
    }
    let listed = scan.finish("C:/src");
    assert_eq!(listed.root, "C:/src");
    let mut entries: Vec<(&str, bool, u64, i64, u32)> = listed
        .entries
        .iter()
        .map(|e| (e.rel_path.as_str(), e.is_dir, e.size, e.mtime, e.attrs))
        .collect();
    entries.sort();
    assert_eq!(
        entries,
        vec![
            ("a.bin", false, 1024, 9, 32),
            ("empty", true, 0, 7, 16),
            ("link", true, 0, 0, 0),
            ("sub", true, 0, 7, 16),
            ("sub/b.bin", false, 2048, 9, 32),
        ]
    );
    let (tasks, mut tally) = tree.scan(&mut Vec::new());
    for rel in &tasks {
        tally.file_copied(rel, tree.files[rel], Ok(tree.files[rel]));
    }
    let copied = tally.finish(false, "C:/src", "D:/dst").unwrap().copied_manifest;
    assert!(diff_manifests(&copied, &listed).is_empty());
}

#[test]
fn only_plain_files_are_copied() {
    assert!(still_plain(Some(true), false));
    assert!(!still_plain(Some(true), true));
    assert!(!still_plain(Some(false), false));
    assert!(!still_plain(None, false));
}
