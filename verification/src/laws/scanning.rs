//! The scan of a drive as a whole: what the tree holds in the end.

use crate::explore::{capped, total};
use crate::laws::annotation::{has_under, is_notable, law_notable_subtrees_are_shown, lies_under};
use crate::laws::totals::{
    files_in, is_subtree, law_scanned_directory_shows_its_subtree, law_subtree_is_counted,
    lemma_volume, sizes_in,
};
use crate::mft::index::MftIndexView;
use crate::mft::types::MftRecordView;
use crate::mft::FileRef;
use crate::models::{ConfigView, MigrationView, ScanDiagnostics, ScanSource};
use crate::paths::{
    excluded_by, expanded, normal_expanded, normal_list, normalized, same_or_under, EnvVarsView,
};
use crate::scanner::annotate::{
    annotated, annotated_by, facts_answered, root_summary, LinkProbes, NodeFacts,
};
use crate::scanner::construct::filed_by_number;
use crate::scanner::engine::{
    is_mft_outcome, is_walked_outcome, mft_diagnostics, signed32, walked_summary,
};
use crate::scanner::graph::{GraphDiagnostics, GraphView};
use crate::scanner::materialize::{is_shown, key_of, keys_apart, parent_key, shows};
use crate::scanner::tree::{root_display, TreeStoreView};
use crate::scanner::tree_model::{graph_of, in_tree};
use vstd::prelude::*;
use vstd::string::*;

verus! {

/// No two directories have the same path, and none but the root has the path under
/// which the root is shown.
pub open spec fn paths_apart(g: GraphView) -> bool {
    &&& forall|p: FileRef, q: FileRef|
        #[trigger] g.nodes.contains_key(p) && #[trigger] g.nodes.contains_key(q) && normalized(
            g.nodes[p].path,
        ) == normalized(g.nodes[q].path) ==> p == q
    &&& forall|p: FileRef| #[trigger]
        g.nodes.contains_key(p) && p != g.root ==> normalized(g.nodes[p].path) != normalized(
            root_display(),
        )
}

proof fn lemma_keys_apart(
    g: GraphView,
    cfg: ConfigView,
    migs: Seq<MigrationView>,
    env: EnvVarsView,
    facts: Map<FileRef, NodeFacts>,
)
    requires
        paths_apart(g),
    ensures
        keys_apart(annotated(g, cfg, migs, env, facts)),
{
    let h = annotated(g, cfg, migs, env, facts);
    assert forall|p: FileRef, q: FileRef|
        #![trigger parent_key(h, p), parent_key(h, q)]
        parent_key(h, p) is Some && parent_key(h, p) == parent_key(h, q) implies p == q by {
        if p != h.root {
            assert(g.nodes.contains_key(p));
        }
        if q != h.root {
            assert(g.nodes.contains_key(q));
        }
    }
    assert forall|p: FileRef, q: FileRef| #[trigger] is_shown(h, p) && #[trigger] is_shown(h, q)
        && key_of(h, p) == key_of(h, q) implies p == q by {
        assert(g.nodes.contains_key(p) && g.nodes.contains_key(q));
    }
}

/// After a fast scan every directory of the volume that is not excluded and large
/// enough stands in the tree, under its path, with the size and the number of all files
/// in its subtree and the number of directories in it.
pub proof fn law_fast_scan_shows_large_directories<
    J: Fn(&str) -> bool,
    L: Fn(&str) -> bool,
    T: Fn(&str) -> Option<u64>,
>(
    index: MftIndexView,
    excluded: Seq<Seq<char>>,
    drive: char,
    cfg: ConfigView,
    migs: Seq<MigrationView>,
    env: EnvVarsView,
    probes: LinkProbes<J, L, T>,
    scan_id: Seq<char>,
    s: TreeStoreView,
    d: ScanDiagnostics,
    r: FileRef,
    list: Seq<FileRef>,
)
    requires
        is_mft_outcome(index, excluded, drive, cfg, migs, env, probes, scan_id, s, d),
        filed_by_number(index.records),
        ({
            let g = graph_of(index.records, excluded, drive, env);
            &&& paths_apart(g)
            &&& g.nodes.contains_key(r)
            &&& !g.nodes[r].excluded
            &&& is_subtree(g, r, list)
            &&& total(list, sizes_in(g)) >= cfg.scan.min_size_mb * 1024 * 1024
        }),
    ensures
        ({
            let g = graph_of(index.records, excluded, drive, env);
            let key = normalized(g.nodes[r].path);
            &&& s.nodes.contains_key(key)
            &&& s.nodes[key].size_bytes == capped(total(list, sizes_in(g)))
            &&& s.nodes[key].file_count == capped(total(list, files_in(g)))
            &&& s.nodes[key].dir_count == capped(list.len())
        }),
{
    let g = graph_of(index.records, excluded, drive, env);
    let h = choose|h: GraphView|
        {
            &&& #[trigger] annotated_by(g, h, cfg, migs, env, probes)
            &&& shows(h, s)
            &&& mft_diagnostics(index, h, d)
            &&& s.scan_id == scan_id
            &&& s.source == ScanSource::Mft
            &&& s.root_file_summary == root_summary(
                h,
                index.skipped_records as u64,
            )
        };
    let facts = choose|facts: Map<FileRef, NodeFacts>|
        {
            &&& h == #[trigger] annotated(g, cfg, migs, env, facts)
            &&& forall|x: FileRef| #[trigger]
                g.nodes.contains_key(x) ==> facts_answered(
                    g.nodes[x],
                    migs,
                    facts[x],
                    probes.junction_exists,
                    probes.link_valid,
                    probes.target_size,
                )
        };
    lemma_keys_apart(g, cfg, migs, env, facts);
    assert(in_tree(index.records, r));
    lemma_volume(index.records, excluded, drive, env, r);
    law_subtree_is_counted(g, r, list);
    law_notable_subtrees_are_shown(g, cfg, migs, env, facts, r);
    let notable = |x: FileRef| is_notable(h.nodes[x], cfg.scan.min_size_mb);
    assert(notable(r)) by {
        assert(h.nodes[r].subtree_size_bytes == g.nodes[r].subtree_size_bytes);
    }
    assert(lies_under(g, r, r, 0) && notable(r));
    assert(has_under(g, r, notable));
    assert(is_shown(h, r));
    law_scanned_directory_shows_its_subtree(
        index.records,
        excluded,
        drive,
        env,
        cfg,
        migs,
        facts,
        s,
        r,
        list,
    );
}

/// A fast scan reports what was counted, and sums up the files in the root directory
/// together with what belongs to the file system itself; records that had to be skipped
/// make the sum incomplete.
pub proof fn law_fast_scan_reports_its_counts<
    J: Fn(&str) -> bool,
    L: Fn(&str) -> bool,
    T: Fn(&str) -> Option<u64>,
>(
    index: MftIndexView,
    excluded: Seq<Seq<char>>,
    drive: char,
    cfg: ConfigView,
    migs: Seq<MigrationView>,
    env: EnvVarsView,
    probes: LinkProbes<J, L, T>,
    scan_id: Seq<char>,
    s: TreeStoreView,
    d: ScanDiagnostics,
)
    requires
        is_mft_outcome(index, excluded, drive, cfg, migs, env, probes, scan_id, s, d),
        index.skipped_records <= u64::MAX,
    ensures
        ({
            let g = graph_of(index.records, excluded, drive, env);
            let sum = s.root_file_summary;
            let direct = if g.nodes.contains_key(g.root) {
                g.nodes[g.root].direct_file_size_bytes
            } else {
                0
            };
            &&& s.scan_id == scan_id
            &&& s.source == ScanSource::Mft
            &&& d.scanned_records == index.scanned_records
            &&& d.scanned_files == index.scanned_files
            &&& d.skipped_records == index.skipped_records
            &&& d.hard_link_entries == index.hard_link_entries
            &&& d.scanned_dirs == g.nodes.len()
            &&& d.orphan_entries == g.diagnostics.unreachable_nodes
            &&& sum.direct_file_size_bytes == direct
            &&& g.nodes.contains_key(g.root) ==> sum.direct_file_count
                == g.nodes[g.root].direct_file_count
            &&& sum.system_metadata_size_bytes == Some(g.system_metadata_size_bytes)
            &&& sum.total_known_size_bytes == capped(
                (direct + g.system_metadata_size_bytes) as nat,
            )
            &&& sum.incomplete == (index.skipped_records > 0)
        }),
{
    let g = graph_of(index.records, excluded, drive, env);
    let h = choose|h: GraphView|
        {
            &&& #[trigger] annotated_by(g, h, cfg, migs, env, probes)
            &&& shows(h, s)
            &&& mft_diagnostics(index, h, d)
            &&& s.scan_id == scan_id
            &&& s.source == ScanSource::Mft
            &&& s.root_file_summary == root_summary(
                h,
                index.skipped_records as u64,
            )
        };
    assert(h.nodes.dom() =~= g.nodes.dom());
}

/// The scan that walked a drive reports what was counted; nothing is known of what
/// belongs to the file system itself, so the sum is never complete.
pub proof fn law_walked_scan_reports_its_counts<
    J: Fn(&str) -> bool,
    L: Fn(&str) -> bool,
    T: Fn(&str) -> Option<u64>,
>(
    g: GraphView,
    scanned_files: u64,
    entry_errors: u64,
    cfg: ConfigView,
    migs: Seq<MigrationView>,
    env: EnvVarsView,
    probes: LinkProbes<J, L, T>,
    scan_id: Seq<char>,
    s: TreeStoreView,
    d: ScanDiagnostics,
)
    requires
        is_walked_outcome(
            g,
            scanned_files,
            entry_errors,
            cfg,
            migs,
            env,
            probes,
            scan_id,
            s,
            d,
        ),
    ensures
        s.scan_id == scan_id,
        s.source == ScanSource::Filesystem,
        d.scanned_files == scanned_files,
        d.skipped_records == entry_errors,
        d.scanned_dirs == g.nodes.len(),
        d.scanned_records == 0,
        d.hard_link_entries == 0,
        d.orphan_entries == g.diagnostics.unreachable_nodes,
        s.root_file_summary.incomplete,
        s.root_file_summary.system_metadata_size_bytes is None,
        g.nodes.contains_key(g.root) ==> s.root_file_summary.direct_file_size_bytes
            == g.nodes[g.root].direct_file_size_bytes && s.root_file_summary.direct_file_count
            == g.nodes[g.root].direct_file_count && s.root_file_summary.total_known_size_bytes
            == g.nodes[g.root].direct_file_size_bytes,
{
    let h = choose|h: GraphView|
        {
            &&& #[trigger] annotated_by(g, h, cfg, migs, env, probes)
            &&& shows(h, s)
            &&& d.scanned_records == 0
            &&& d.scanned_dirs == h.nodes.len()
            &&& d.scanned_files == scanned_files
            &&& d.skipped_records == entry_errors
            &&& d.orphan_entries == h.diagnostics.unreachable_nodes
            &&& d.hard_link_entries == 0
            &&& s.scan_id == scan_id
            &&& s.source == ScanSource::Filesystem
            &&& s.root_file_summary == walked_summary(h)
        };
    assert(h.nodes.dom() =~= g.nodes.dom());
}

// ---------------------------------------------------------------------------
// Exclusions
// ---------------------------------------------------------------------------

proof fn lemma_normal_list(paths: Seq<Seq<char>>, env: EnvVarsView, n: nat, p: Seq<char>)
    requires
        n <= paths.len(),
    ensures
        normal_list(paths, env, n).contains(p) <==> p.len() > 0 && exists|i: int|
            0 <= i < n && normalized(expanded(#[trigger] paths[i], env)) == p,
    decreases n,
{
    if n > 0 {
        let m = (n - 1) as nat;
        lemma_normal_list(paths, env, m, p);
        let before = normal_list(paths, env, m);
        let now = normal_list(paths, env, n);
        let last = normal_expanded(paths[m as int], env);
        if now.contains(p) {
            let k = choose|k: int| 0 <= k < now.len() && now[k] == p;
            if k < before.len() {
                assert(before[k] == p);
                assert(before.contains(p));
                let i = choose|i: int|
                    0 <= i < m && normalized(expanded(#[trigger] paths[i], env)) == p;
                assert(normalized(expanded(paths[i], env)) == p);
            } else {
                assert(normalized(expanded(paths[m as int], env)) == p);
            }
        }
        if p.len() > 0 && exists|i: int|
            0 <= i < n && normalized(expanded(#[trigger] paths[i], env)) == p {
            let i = choose|i: int|
                0 <= i < n && normalized(expanded(#[trigger] paths[i], env)) == p;
            if i < m {
                assert(before.contains(p));
                let k = choose|k: int| 0 <= k < before.len() && before[k] == p;
                assert(now[k] == p);
            } else {
                assert(now[before.len() as int] == p);
            }
        }
    }
}

/// A directory of the volume is excluded exactly where it is one of the directories
/// that the settings exclude, their variables replaced, or lies in one.
pub proof fn law_excluded_directories(
    recs: Map<u64, MftRecordView>,
    paths: Seq<Seq<char>>,
    drive: char,
    env: EnvVarsView,
    r: FileRef,
)
    ensures
        ({
            let g = graph_of(recs, paths, drive, env);
            g.nodes.contains_key(r) ==> (g.nodes[r].excluded <==> g.nodes[r].path.len() > 0
                && exists|i: int|
                0 <= i < paths.len() && normalized(expanded(#[trigger] paths[i], env)).len() > 0
                    && same_or_under(
                    normalized(g.nodes[r].path),
                    normalized(expanded(paths[i], env)),
                ))
        }),
{
    let g = graph_of(recs, paths, drive, env);
    if g.nodes.contains_key(r) {
        let p = normalized(g.nodes[r].path);
        let list = normal_list(paths, env, paths.len());
        if excluded_by(p, list) {
            let k = choose|k: int| 0 <= k < list.len() && same_or_under(p, #[trigger] list[k]);
            assert(list.contains(list[k]));
            lemma_normal_list(paths, env, paths.len(), list[k]);
            let i = choose|i: int|
                0 <= i < paths.len() && normalized(expanded(#[trigger] paths[i], env)) == list[k];
            assert(same_or_under(p, normalized(expanded(paths[i], env))));
        }
        if exists|i: int|
            0 <= i < paths.len() && normalized(expanded(#[trigger] paths[i], env)).len() > 0
                && same_or_under(p, normalized(expanded(paths[i], env))) {
            let i = choose|i: int|
                0 <= i < paths.len() && normalized(expanded(#[trigger] paths[i], env)).len() > 0
                    && same_or_under(p, normalized(expanded(paths[i], env)));
            let q = normalized(expanded(paths[i], env));
            lemma_normal_list(paths, env, paths.len(), q);
            let k = choose|k: int| 0 <= k < list.len() && list[k] == q;
            assert(same_or_under(p, list[k]));
        }
    }
}

/// A code of the system keeps its bits where it is read as a signed number: it is the
/// same number, or smaller by the number of codes.
pub proof fn law_code_keeps_its_bits(code: u32)
    ensures
        signed32(code) == code || signed32(code) == code - 0x1_0000_0000,
        code <= i32::MAX ==> signed32(code) == code,
        code > i32::MAX ==> signed32(code) < 0,
{
}

/// A graph in which nothing was noticed has nothing to report.
pub proof fn law_nothing_noticed_is_nothing_reported()
    ensures
        ({
            let d = GraphDiagnostics::spec_none();
            d.stale_sequence_dirs + d.stale_sequence_files + d.missing_parent
                + d.duplicate_dir_entry + d.cycle_nodes + d.unreachable_nodes
                + d.non_dir_parent_files + d.non_dir_parent_dirs == 0 && !d.root_missing
        }),
{
}

} // verus!
