//! Annotating the directories of a drive: presets, migrations and links, and what
//! is shown.

use crate::mft::FileRef;
use crate::models::{
    AccessState, ConfigView, MigrationStatus, MigrationView, PresetView, ScanItemStatus,
};
use crate::paths::{expanded, normal_expanded, normalized, EnvVarsView};
use crate::scanner::ancestors::{holds, holds_at, inner_edge};
use crate::scanner::annotate::{
    annotated, annotated_node, annotated_nodes, deciding, forced_set, junction_set, migrated_set,
    spread_nodes, NodeFacts,
};
use crate::scanner::context::{
    candidate_status, candidates, first_preset, is_candidate, is_exact_status, min_bytes_of,
    preset_names, priority, winner,
};
use crate::scanner::graph::{kids_of, DirectoryNodeView, GraphView};
use vstd::prelude::*;

verus! {

// ---------------------------------------------------------------------------
// Presets
// ---------------------------------------------------------------------------

/// One of the preset's paths, its variables replaced, is the path `p` in normal form.
pub open spec fn names_path(preset: PresetView, env: EnvVarsView, p: Seq<char>) -> bool {
    exists|j: int|
        0 <= j < preset.match_paths.len() && normalized(
            expanded(#[trigger] preset.match_paths[j], env),
        ) == p
}

/// Preset `k` is the first that names the path.
pub open spec fn is_first_namer(
    presets: Seq<PresetView>,
    env: EnvVarsView,
    p: Seq<char>,
    k: int,
) -> bool {
    &&& 0 <= k < presets.len()
    &&& names_path(presets[k], env, p)
    &&& forall|j: int| 0 <= j < k ==> !names_path(#[trigger] presets[j], env, p)
}

proof fn lemma_names(preset: PresetView, env: EnvVarsView, p: Seq<char>)
    ensures
        preset_names(preset, env, p, preset.match_paths.len()) <==> names_path(preset, env, p),
{
    if preset_names(preset, env, p, preset.match_paths.len()) {
        let j = choose|j: int|
            0 <= j < preset.match_paths.len() && #[trigger] normal_expanded(
                preset.match_paths[j],
                env,
            ) == p;
        assert(normalized(expanded(preset.match_paths[j], env)) == p);
    }
    if names_path(preset, env, p) {
        let j = choose|j: int|
            0 <= j < preset.match_paths.len() && normalized(
                expanded(#[trigger] preset.match_paths[j], env),
            ) == p;
        assert(normal_expanded(preset.match_paths[j], env) == p);
    }
}

proof fn lemma_first(presets: Seq<PresetView>, env: EnvVarsView, p: Seq<char>, n: nat)
    requires
        n <= presets.len(),
    ensures
        match first_preset(presets, env, p, n) {
            Some(k) => 0 <= k < n && is_first_namer(presets, env, p, k),
            None => forall|j: int| 0 <= j < n ==> !names_path(#[trigger] presets[j], env, p),
        },
    decreases n,
{
    if n > 0 {
        lemma_first(presets, env, p, (n - 1) as nat);
        lemma_names(presets[n - 1], env, p);
    }
}

/// A directory is marked with the first preset that names it, and with none where none
/// does.
pub proof fn law_first_preset_marks(
    g: GraphView,
    cfg: ConfigView,
    migs: Seq<MigrationView>,
    env: EnvVarsView,
    facts: Map<FileRef, NodeFacts>,
    r: FileRef,
    k: int,
)
    requires
        g.nodes.contains_key(r),
    ensures
        ({
            let node = annotated(g, cfg, migs, env, facts).nodes[r];
            let p = normalized(g.nodes[r].path);
            &&& p.len() == 0 ==> node.matched_preset is None
            &&& p.len() > 0 && is_first_namer(cfg.presets, env, p, k) ==> {
                &&& node.matched_preset == Some(cfg.presets[k].id)
                &&& node.category == Some(cfg.presets[k].category)
                &&& node.auto_migrate == cfg.presets[k].auto_migrate
            }
            &&& (forall|j: int|
                0 <= j < cfg.presets.len() ==> !names_path(#[trigger] cfg.presets[j], env, p)) ==> {
                &&& node.matched_preset is None
                &&& node.category is None
                &&& !node.auto_migrate
            }
        }),
{
    let p = normalized(g.nodes[r].path);
    lemma_first(cfg.presets, env, p, cfg.presets.len());
    if is_first_namer(cfg.presets, env, p, k) {
        assert(names_path(cfg.presets[k], env, p));
        match first_preset(cfg.presets, env, p, cfg.presets.len()) {
            Some(m) => {
                if m < k {
                    assert(!names_path(cfg.presets[m], env, p));
                } else if k < m {
                    assert(!names_path(cfg.presets[k], env, p));
                }
            },
            None => {},
        }
    }
}

/// Annotating changes nothing of what the scan found out.
pub proof fn law_findings_are_kept(
    g: GraphView,
    cfg: ConfigView,
    migs: Seq<MigrationView>,
    env: EnvVarsView,
    facts: Map<FileRef, NodeFacts>,
    r: FileRef,
)
    ensures
        ({
            let h = annotated(g, cfg, migs, env, facts);
            &&& h.root == g.root
            &&& h.children == g.children
            &&& h.nodes.contains_key(r) == g.nodes.contains_key(r)
            &&& g.nodes.contains_key(r) ==> {
                let (a, b) = (g.nodes[r], h.nodes[r]);
                &&& a.path == b.path && a.display_name == b.display_name && a.depth == b.depth
                &&& a.reparse_tag == b.reparse_tag && a.access_state == b.access_state
                &&& a.direct_file_size_bytes == b.direct_file_size_bytes && a.direct_file_count
                    == b.direct_file_count && a.direct_dir_count == b.direct_dir_count
                &&& a.subtree_size_bytes == b.subtree_size_bytes && a.subtree_file_count
                    == b.subtree_file_count && a.subtree_dir_count == b.subtree_dir_count
                &&& a.excluded == b.excluded
            }
        }),
{
}

// ---------------------------------------------------------------------------
// Migrations and links
// ---------------------------------------------------------------------------

/// Migration `i` has its link at the path, and was not moved back.
pub open spec fn concerns(migs: Seq<MigrationView>, p: Seq<char>, i: int) -> bool {
    0 <= i < migs.len() && migs[i].status != MigrationStatus::TargetPendingDelete && normalized(
        migs[i].source,
    ) == p && p.len() > 0
}

/// The facts about the directory say of each migration that concerns it whether its
/// link resolves: `sound` says so too.
pub open spec fn tells_soundness(
    migs: Seq<MigrationView>,
    p: Seq<char>,
    facts: NodeFacts,
    sound: spec_fn(int) -> bool,
) -> bool {
    let cands = candidates(migs, p, migs.len());
    facts.valid.len() == cands.len() && forall|j: int|
        0 <= j < cands.len() ==> #[trigger] facts.valid[j] == sound(cands[j])
}

proof fn lemma_candidates(migs: Seq<MigrationView>, p: Seq<char>, n: nat, i: int)
    requires
        n <= migs.len(),
    ensures
        candidates(migs, p, n).contains(i) <==> concerns(migs, p, i) && i < n,
    decreases n,
{
    if n > 0 {
        lemma_candidates(migs, p, (n - 1) as nat, i);
        let before = candidates(migs, p, (n - 1) as nat);
        let now = candidates(migs, p, n);
        if is_candidate(migs[n - 1], p) {
            assert(now == before.push(n - 1));
            if now.contains(i) {
                let j = choose|j: int| 0 <= j < now.len() && now[j] == i;
                if j < before.len() {
                    assert(before[j] == i);
                }
            }
            if before.contains(i) {
                let j = choose|j: int| 0 <= j < before.len() && before[j] == i;
                assert(now[j] == i);
            }
            assert(now[before.len() as int] == n - 1);
        }
    }
}

/// No candidate has a higher priority than the winner.
proof fn lemma_winner(
    migs: Seq<MigrationView>,
    cands: Seq<int>,
    valid: Seq<bool>,
    n: nat,
    j: int,
)
    requires
        0 <= j < n,
    ensures
        winner(migs, cands, valid, n) matches Some(w) && 0 <= w < n && priority(
            candidate_status(migs, cands, valid, w),
        ) >= priority(candidate_status(migs, cands, valid, j)),
    decreases n,
{
    if n > 1 {
        if j < n - 1 {
            lemma_winner(migs, cands, valid, (n - 1) as nat, j);
        } else {
            lemma_winner(migs, cands, valid, (n - 1) as nat, 0);
        }
    } else {
        assert(winner(migs, cands, valid, 0) is None);
        assert(winner(migs, cands, valid, 1) == Some(0int));
    }
}

/// What the migrations make of a directory, as far as they concern it: a broken link
/// counts more than a pending migration, and that more than one that is done.
pub proof fn law_migrations_decide(
    g: GraphView,
    cfg: ConfigView,
    migs: Seq<MigrationView>,
    env: EnvVarsView,
    facts: Map<FileRef, NodeFacts>,
    r: FileRef,
    sound: spec_fn(int) -> bool,
    i: int,
)
    requires
        g.nodes.contains_key(r),
        tells_soundness(migs, normalized(g.nodes[r].path), facts[r], sound),
        concerns(migs, normalized(g.nodes[r].path), i),
    ensures
        ({
            let node = annotated(g, cfg, migs, env, facts).nodes[r];
            let p = normalized(g.nodes[r].path);
            let broken = exists|j: int| #[trigger] concerns(migs, p, j) && !sound(j);
            let pending = exists|j: int| #[trigger]
                concerns(migs, p, j) && migs[j].status != MigrationStatus::Active;
            &&& node.scan_status == Some(
                if broken {
                    ScanItemStatus::LinkBroken
                } else if pending {
                    ScanItemStatus::MigrationPending
                } else {
                    ScanItemStatus::Migrated
                },
            )
            &&& node.linked_target_size_bytes == facts[r].target_size
            &&& exists|j: int| #[trigger]
                concerns(migs, p, j) && node.migration_id == Some(migs[j].id)
        }),
{
    let node = g.nodes[r];
    let p = normalized(node.path);
    let f = facts[r];
    let cands = candidates(migs, p, migs.len());
    lemma_candidates(migs, p, migs.len(), i);
    let a = choose|a: int| 0 <= a < cands.len() && cands[a] == i;
    lemma_winner(migs, cands, f.valid, cands.len(), a);
    let w = winner(migs, cands, f.valid, cands.len())->0;
    lemma_candidates(migs, p, migs.len(), cands[w]);
    assert(cands.contains(cands[w]));
    assert(concerns(migs, p, cands[w]));
    assert(f.valid[w] == sound(cands[w]));
    assert forall|j: int| #[trigger] concerns(migs, p, j) implies priority(
        candidate_status(migs, cands, f.valid, w),
    ) >= (if !sound(j) {
        4int
    } else if migs[j].status != MigrationStatus::Active {
        3int
    } else {
        2int
    }) by {
        lemma_candidates(migs, p, migs.len(), j);
        let b = choose|b: int| 0 <= b < cands.len() && cands[b] == j;
        lemma_winner(migs, cands, f.valid, cands.len(), b);
        assert(f.valid[b] == sound(cands[b]));
    }
    assert(deciding(node, migs, f) == Some(
        (cands[w], candidate_status(migs, cands, f.valid, w)),
    ));
}

/// The directory has a status of its own: a migration concerns it, or it is a junction.
pub open spec fn speaks_for_itself(
    migs: Seq<MigrationView>,
    node: DirectoryNodeView,
    facts: NodeFacts,
) -> bool {
    (exists|i: int| concerns(migs, normalized(node.path), i)) || is_link(node, facts)
}

/// The directory is a reparse point that is a junction.
pub open spec fn is_link(node: DirectoryNodeView, facts: NodeFacts) -> bool {
    node.reparse_tag is Some && node.path.len() > 0 && facts.junction
}

proof fn lemma_no_candidates(migs: Seq<MigrationView>, p: Seq<char>, n: nat)
    requires
        n <= migs.len(),
        forall|i: int| !concerns(migs, p, i),
    ensures
        candidates(migs, p, n).len() == 0,
    decreases n,
{
    if n > 0 {
        lemma_no_candidates(migs, p, (n - 1) as nat);
        assert(!concerns(migs, p, n - 1));
    }
}

proof fn lemma_own(
    node: DirectoryNodeView,
    cfg: ConfigView,
    migs: Seq<MigrationView>,
    env: EnvVarsView,
    facts: NodeFacts,
)
    requires
        facts.valid.len() == candidates(migs, normalized(node.path), migs.len()).len(),
    ensures
        ({
            let own = annotated_node(node, cfg, migs, env, facts);
            let moved = exists|i: int| concerns(migs, normalized(node.path), i);
            &&& own.is_junction == is_link(node, facts)
            &&& own.scan_status is Some <==> speaks_for_itself(migs, node, facts)
            &&& moved ==> own.scan_status is Some && is_exact_status(own.scan_status->0)
            &&& !moved && is_link(node, facts) ==> own.scan_status == Some(
                ScanItemStatus::ExistingLink,
            )
            &&& !moved ==> own.migration_id is None && own.linked_target_size_bytes is None
        }),
{
    let p = normalized(node.path);
    let cands = candidates(migs, p, migs.len());
    if exists|i: int| concerns(migs, p, i) {
        let i = choose|i: int| concerns(migs, p, i);
        lemma_candidates(migs, p, migs.len(), i);
        let a = choose|a: int| 0 <= a < cands.len() && cands[a] == i;
        lemma_winner(migs, cands, facts.valid, cands.len(), a);
    } else {
        lemma_no_candidates(migs, p, migs.len());
    }
}

/// A junction that no migration concerns is a link of somebody else, and no migration
/// is named.
pub proof fn law_foreign_links_are_noted(
    g: GraphView,
    cfg: ConfigView,
    migs: Seq<MigrationView>,
    env: EnvVarsView,
    facts: Map<FileRef, NodeFacts>,
    r: FileRef,
)
    requires
        g.nodes.contains_key(r),
        facts[r].valid.len() == candidates(
            migs,
            normalized(g.nodes[r].path),
            migs.len(),
        ).len(),
        forall|i: int| !concerns(migs, normalized(g.nodes[r].path), i),
    ensures
        ({
            let node = annotated(g, cfg, migs, env, facts).nodes[r];
            &&& node.is_junction == is_link(g.nodes[r], facts[r])
            &&& is_link(g.nodes[r], facts[r]) ==> node.scan_status == Some(
                ScanItemStatus::ExistingLink,
            )
            &&& node.migration_id is None
            &&& node.linked_target_size_bytes is None
        }),
{
    lemma_own(g.nodes[r], cfg, migs, env, facts[r]);
}

/// `x` is `k` steps below `r` in the graph.
pub open spec fn lies_under(g: GraphView, r: FileRef, x: FileRef, k: nat) -> bool
    decreases k,
{
    if k == 0 {
        x == r
    } else {
        exists|c: FileRef|
            #[trigger] kids_of(g.children, r).contains(c) && g.nodes.contains_key(r)
                && g.nodes.contains_key(c) && lies_under(g, c, x, (k - 1) as nat)
    }
}

/// One of the directories in the subtree of `r` is of the kind.
pub open spec fn has_under(g: GraphView, r: FileRef, kind: spec_fn(FileRef) -> bool) -> bool {
    exists|x: FileRef, k: nat| #[trigger] lies_under(g, r, x, k) && kind(x)
}

proof fn lemma_under(
    g: GraphView,
    nodes: Map<FileRef, DirectoryNodeView>,
    seeds: Set<FileRef>,
    r: FileRef,
    k: nat,
)
    requires
        nodes.dom() == g.nodes.dom(),
    ensures
        holds_at(nodes, g.children, seeds, r, k) <==> exists|x: FileRef| #[trigger]
            lies_under(g, r, x, k) && seeds.contains(x),
    decreases k,
{
    if k == 0 {
        if seeds.contains(r) {
            assert(lies_under(g, r, r, 0) && seeds.contains(r));
        }
    } else {
        let m = (k - 1) as nat;
        if holds_at(nodes, g.children, seeds, r, k) {
            let c = choose|c: FileRef|
                #[trigger] inner_edge(nodes, g.children, r, c) && holds_at(
                    nodes,
                    g.children,
                    seeds,
                    c,
                    m,
                );
            lemma_under(g, nodes, seeds, c, m);
            let x = choose|x: FileRef| #[trigger] lies_under(g, c, x, m) && seeds.contains(x);
            assert(g.nodes.dom().contains(r) && g.nodes.dom().contains(c)) by {
                assert(nodes.dom().contains(r) && nodes.dom().contains(c));
            }
            assert(kids_of(g.children, r).contains(c));
            assert(lies_under(g, r, x, k) && seeds.contains(x));
        }
        if exists|x: FileRef| #[trigger] lies_under(g, r, x, k) && seeds.contains(x) {
            let x = choose|x: FileRef| #[trigger] lies_under(g, r, x, k) && seeds.contains(x);
            let c = choose|c: FileRef|
                #[trigger] kids_of(g.children, r).contains(c) && g.nodes.contains_key(r)
                    && g.nodes.contains_key(c) && lies_under(g, c, x, m);
            lemma_under(g, nodes, seeds, c, m);
            assert(lies_under(g, c, x, m) && seeds.contains(x));
            assert(nodes.dom().contains(r) && nodes.dom().contains(c)) by {
                assert(g.nodes.dom().contains(r) && g.nodes.dom().contains(c));
            }
            assert(inner_edge(nodes, g.children, r, c));
        }
    }
}

proof fn lemma_holds(
    g: GraphView,
    nodes: Map<FileRef, DirectoryNodeView>,
    seeds: Set<FileRef>,
    r: FileRef,
    kind: spec_fn(FileRef) -> bool,
)
    requires
        nodes.dom() == g.nodes.dom(),
        g.nodes.contains_key(r),
        forall|x: FileRef| g.nodes.contains_key(x) ==> (#[trigger] seeds.contains(x) <==> kind(x)),
        forall|x: FileRef| #[trigger] seeds.contains(x) ==> g.nodes.contains_key(x),
    ensures
        holds(nodes, g.children, seeds, r) <==> has_under(g, r, kind),
{
    if holds(nodes, g.children, seeds, r) {
        let k = choose|k: nat| holds_at(nodes, g.children, seeds, r, k);
        lemma_under(g, nodes, seeds, r, k);
        let x = choose|x: FileRef| #[trigger] lies_under(g, r, x, k) && seeds.contains(x);
        assert(lies_under(g, r, x, k) && kind(x));
    }
    if has_under(g, r, kind) {
        let (x, k) = choose|x: FileRef, k: nat| #[trigger] lies_under(g, r, x, k) && kind(x);
        lemma_has_node(g, r, x, k);
        lemma_under(g, nodes, seeds, r, k);
        assert(lies_under(g, r, x, k) && seeds.contains(x));
    }
}

proof fn lemma_has_node(g: GraphView, r: FileRef, x: FileRef, k: nat)
    requires
        g.nodes.contains_key(r),
        lies_under(g, r, x, k),
    ensures
        g.nodes.contains_key(x),
    decreases k,
{
    if k > 0 {
        let c = choose|c: FileRef|
            #[trigger] kids_of(g.children, r).contains(c) && g.nodes.contains_key(r)
                && g.nodes.contains_key(c) && lies_under(g, c, x, (k - 1) as nat);
        lemma_has_node(g, c, x, (k - 1) as nat);
    }
}

/// The facts about all directories are complete.
pub open spec fn facts_complete(
    g: GraphView,
    migs: Seq<MigrationView>,
    facts: Map<FileRef, NodeFacts>,
) -> bool {
    forall|r: FileRef| #[trigger]
        g.nodes.contains_key(r) ==> facts[r].valid.len() == candidates(
            migs,
            normalized(g.nodes[r].path),
            migs.len(),
        ).len()
}

/// A directory without a status of its own says that it contains something migrated,
/// or else that it contains a link, exactly where it does.
pub proof fn law_status_comes_from_below(
    g: GraphView,
    cfg: ConfigView,
    migs: Seq<MigrationView>,
    env: EnvVarsView,
    facts: Map<FileRef, NodeFacts>,
    r: FileRef,
)
    requires
        g.nodes.contains_key(r),
        facts_complete(g, migs, facts),
        !speaks_for_itself(migs, g.nodes[r], facts[r]),
    ensures
        annotated(g, cfg, migs, env, facts).nodes[r].scan_status == if has_under(
            g,
            r,
            |x: FileRef| exists|i: int| concerns(migs, normalized(g.nodes[x].path), i),
        ) {
            Some(ScanItemStatus::ContainsMigrated)
        } else if has_under(g, r, |x: FileRef| is_link(g.nodes[x], facts[x])) {
            Some(ScanItemStatus::ContainsLink)
        } else {
            None
        },
{
    let own = annotated_nodes(g.nodes, cfg, migs, env, facts);
    let moved = |x: FileRef| exists|i: int| concerns(migs, normalized(g.nodes[x].path), i);
    let linked = |x: FileRef| is_link(g.nodes[x], facts[x]);
    assert(own.dom() =~= g.nodes.dom());
    lemma_own(g.nodes[r], cfg, migs, env, facts[r]);
    assert forall|x: FileRef| g.nodes.contains_key(x) implies (#[trigger] migrated_set(
        own,
    ).contains(x) <==> moved(x)) by {
        lemma_own(g.nodes[x], cfg, migs, env, facts[x]);
    }
    assert forall|x: FileRef| g.nodes.contains_key(x) implies (#[trigger] junction_set(
        own,
    ).contains(x) <==> linked(x)) by {
        lemma_own(g.nodes[x], cfg, migs, env, facts[x]);
    }
    lemma_holds(g, own, migrated_set(own), r, moved);
    lemma_holds(g, own, junction_set(own), r, linked);
}

// ---------------------------------------------------------------------------
// What is shown
// ---------------------------------------------------------------------------

/// The directory is worth showing: it has the size, a preset covers it, something was
/// done to it, or it cannot be read.
pub open spec fn is_notable(node: DirectoryNodeView, min_size_mb: u64) -> bool {
    ||| node.subtree_size_bytes >= min_size_mb * 1024 * 1024
    ||| node.subtree_size_bytes == u64::MAX
    ||| node.matched_preset is Some
    ||| node.scan_status is Some
    ||| node.access_state == AccessState::Inaccessible
}

/// A directory is shown exactly where it is not excluded and something in its subtree
/// is worth showing.
pub proof fn law_notable_subtrees_are_shown(
    g: GraphView,
    cfg: ConfigView,
    migs: Seq<MigrationView>,
    env: EnvVarsView,
    facts: Map<FileRef, NodeFacts>,
    r: FileRef,
)
    requires
        g.nodes.contains_key(r),
    ensures
        ({
            let h = annotated(g, cfg, migs, env, facts);
            h.nodes[r].visible <==> !g.nodes[r].excluded && has_under(
                g,
                r,
                |x: FileRef| is_notable(h.nodes[x], cfg.scan.min_size_mb),
            )
        }),
{
    let h = annotated(g, cfg, migs, env, facts);
    let own = annotated_nodes(g.nodes, cfg, migs, env, facts);
    let spread = spread_nodes(own, g.children);
    let least = min_bytes_of(cfg.scan.min_size_mb);
    let seeds = forced_set(spread, least);
    let notable = |x: FileRef| is_notable(h.nodes[x], cfg.scan.min_size_mb);
    assert(spread.dom() =~= g.nodes.dom());
    assert forall|x: FileRef| g.nodes.contains_key(x) implies (#[trigger] seeds.contains(x)
        <==> notable(x)) by {
        assert(h.nodes[x] == (DirectoryNodeView { visible: h.nodes[x].visible, ..spread[x] }));
    }
    lemma_holds(g, spread, seeds, r, notable);
}

} // verus!
