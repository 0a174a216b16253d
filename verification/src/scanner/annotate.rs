//! Annotating the directories of a graph: presets, migrations, links, and what
//! is shown.

use super::aggregate::{lemma_nodes_by_place, sat_add};
use super::ancestors::{holds, holds_at, inner_edge, list_parents, mark_holders};
use super::context::{
    candidate_status, candidates, first_preset, is_exact_migrated_status, is_exact_status,
    lemma_candidates_bound, lemma_first_preset, min_bytes_of, places, select_migration, winner,
    MigrationLookup, ScanContext,
};
use super::graph::{
    children_view, nodes_view, DirectoryGraph, DirectoryNode, DirectoryNodeView, GraphView,
};
use crate::mft::FileRef;
use crate::models::{
    migrations_view, AccessState, Config, ConfigView, Migration, MigrationView, RootFileSummary,
    ScanItemStatus,
};
use crate::paths::{normalize, normalized, EnvVars, EnvVarsView};
use crate::refmap::RefMap;
use vstd::prelude::*;

verus! {

// ---------------------------------------------------------------------------
// Model: one directory
// ---------------------------------------------------------------------------

/// What was found out about one directory: whether it is a junction, which of
/// the links of its migrations resolve, and the size of the target of the
/// migration that decides, where that target exists.
pub struct NodeFacts {
    pub junction: bool,
    pub valid: Seq<bool>,
    pub target_size: Option<u64>,
}

/// The migration that decides about the directory, and what it makes of it.
pub open spec fn deciding(
    node: DirectoryNodeView,
    migs: Seq<MigrationView>,
    facts: NodeFacts,
) -> Option<(int, ScanItemStatus)> {
    let cands = candidates(migs, normalized(node.path), migs.len());
    match winner(migs, cands, facts.valid, cands.len()) {
        Some(w) => Some((cands[w], candidate_status(migs, cands, facts.valid, w))),
        None => None,
    }
}

/// The preset that covers the directory.
pub open spec fn covering_preset(
    node: DirectoryNodeView,
    cfg: ConfigView,
    env: EnvVarsView,
) -> Option<int> {
    let p = normalized(node.path);
    if p.len() > 0 {
        first_preset(cfg.presets, env, p, cfg.presets.len())
    } else {
        None
    }
}

/// The directory was asked about being a junction, and is one.
pub open spec fn is_found_junction(node: DirectoryNodeView, facts: NodeFacts) -> bool {
    node.reparse_tag is Some && node.path.len() > 0 && facts.junction
}

/// The directory with its own annotations.
pub open spec fn annotated_node(
    node: DirectoryNodeView,
    cfg: ConfigView,
    migs: Seq<MigrationView>,
    env: EnvVarsView,
    facts: NodeFacts,
) -> DirectoryNodeView {
    let preset = covering_preset(node, cfg, env);
    let junction = is_found_junction(node, facts);
    let decision = deciding(node, migs, facts);
    DirectoryNodeView {
        matched_preset: match preset {
            Some(i) => Some(cfg.presets[i].id),
            None => None,
        },
        category: match preset {
            Some(i) => Some(cfg.presets[i].category),
            None => None,
        },
        auto_migrate: match preset {
            Some(i) => cfg.presets[i].auto_migrate,
            None => false,
        },
        is_junction: junction,
        scan_status: match decision {
            Some(d) => Some(d.1),
            None => if junction {
                Some(ScanItemStatus::ExistingLink)
            } else {
                None
            },
        },
        migration_id: match decision {
            Some(d) => Some(migs[d.0].id),
            None => None,
        },
        linked_target_size_bytes: match decision {
            Some(_) => facts.target_size,
            None => None,
        },
        visible: false,
        ..node
    }
}

// ---------------------------------------------------------------------------
// Model: the graph
// ---------------------------------------------------------------------------

/// All directories with their own annotations.
pub open spec fn annotated_nodes(
    nodes: Map<FileRef, DirectoryNodeView>,
    cfg: ConfigView,
    migs: Seq<MigrationView>,
    env: EnvVarsView,
    facts: Map<FileRef, NodeFacts>,
) -> Map<FileRef, DirectoryNodeView> {
    Map::new(
        |r: FileRef| nodes.contains_key(r),
        |r: FileRef| annotated_node(nodes[r], cfg, migs, env, facts[r]),
    )
}

/// The directories that are migrated themselves.
pub open spec fn migrated_set(nodes: Map<FileRef, DirectoryNodeView>) -> Set<FileRef> {
    Set::new(
        |r: FileRef|
            nodes.contains_key(r) && nodes[r].scan_status is Some && is_exact_status(
                nodes[r].scan_status->0,
            ),
    )
}

/// The directories that are junctions.
pub open spec fn junction_set(nodes: Map<FileRef, DirectoryNodeView>) -> Set<FileRef> {
    Set::new(|r: FileRef| nodes.contains_key(r) && nodes[r].is_junction)
}

/// The status of `r`, which a migrated directory or a junction below it gives
/// where it has none of its own.
pub open spec fn spread_status(
    nodes: Map<FileRef, DirectoryNodeView>,
    children: Map<FileRef, Seq<FileRef>>,
    r: FileRef,
) -> Option<ScanItemStatus> {
    if nodes[r].scan_status is Some {
        nodes[r].scan_status
    } else if holds(nodes, children, migrated_set(nodes), r) {
        Some(ScanItemStatus::ContainsMigrated)
    } else if holds(nodes, children, junction_set(nodes), r) {
        Some(ScanItemStatus::ContainsLink)
    } else {
        None
    }
}

/// The directories with the status that comes from below.
pub open spec fn spread_nodes(
    nodes: Map<FileRef, DirectoryNodeView>,
    children: Map<FileRef, Seq<FileRef>>,
) -> Map<FileRef, DirectoryNodeView> {
    Map::new(
        |r: FileRef| nodes.contains_key(r),
        |r: FileRef|
            DirectoryNodeView { scan_status: spread_status(nodes, children, r), ..nodes[r] },
    )
}

/// The directory is shown on its own account.
pub open spec fn is_forced(node: DirectoryNodeView, min_bytes: u64) -> bool {
    node.subtree_size_bytes >= min_bytes || node.matched_preset is Some || node.scan_status is Some
        || node.access_state == AccessState::Inaccessible
}

/// The directories that are shown on their own account.
pub open spec fn forced_set(nodes: Map<FileRef, DirectoryNodeView>, min_bytes: u64) -> Set<
    FileRef,
> {
    Set::new(|r: FileRef| nodes.contains_key(r) && is_forced(nodes[r], min_bytes))
}

/// The directories with what is shown: what is shown on its own account and
/// what lies above it, and nothing that is excluded.
pub open spec fn shown_nodes(
    nodes: Map<FileRef, DirectoryNodeView>,
    children: Map<FileRef, Seq<FileRef>>,
    min_bytes: u64,
) -> Map<FileRef, DirectoryNodeView> {
    Map::new(
        |r: FileRef| nodes.contains_key(r),
        |r: FileRef|
            DirectoryNodeView {
                visible: !nodes[r].excluded && holds(
                    nodes,
                    children,
                    forced_set(nodes, min_bytes),
                    r,
                ),
                ..nodes[r]
            },
    )
}

/// The graph with all annotations.
pub open spec fn annotated(
    g: GraphView,
    cfg: ConfigView,
    migs: Seq<MigrationView>,
    env: EnvVarsView,
    facts: Map<FileRef, NodeFacts>,
) -> GraphView {
    let own = annotated_nodes(g.nodes, cfg, migs, env, facts);
    let spread = spread_nodes(own, g.children);
    GraphView {
        nodes: shown_nodes(spread, g.children, min_bytes_of(cfg.scan.min_size_mb)),
        ..g
    }
}

/// The totals of the files directly in the root directory.
pub open spec fn root_summary(g: GraphView, skipped_records: u64) -> RootFileSummary {
    let size = if g.nodes.contains_key(g.root) {
        g.nodes[g.root].direct_file_size_bytes
    } else {
        0
    };
    RootFileSummary {
        direct_file_size_bytes: size,
        direct_file_count: if g.nodes.contains_key(g.root) {
            g.nodes[g.root].direct_file_count
        } else {
            0
        },
        system_metadata_size_bytes: Some(g.system_metadata_size_bytes),
        total_known_size_bytes: sat_add(size, g.system_metadata_size_bytes),
        incomplete: skipped_records > 0,
    }
}

// ---------------------------------------------------------------------------
// Model: the answers of the file system
// ---------------------------------------------------------------------------

/// `ask` may answer `answer` about the path `text`.
pub open spec fn may_answer<A, F: Fn(&str) -> A>(ask: F, text: Seq<char>, answer: A) -> bool {
    exists|s: &str| s@ == text && #[trigger] call_ensures(ask, (s,), answer)
}

/// The facts about the directory are answers that were given.
pub open spec fn facts_answered<
    J: Fn(&str) -> bool,
    L: Fn(&str) -> bool,
    T: Fn(&str) -> Option<u64>,
>(
    node: DirectoryNodeView,
    migs: Seq<MigrationView>,
    facts: NodeFacts,
    junction_exists: J,
    link_valid: L,
    target_size: T,
) -> bool {
    let cands = candidates(migs, normalized(node.path), migs.len());
    &&& node.reparse_tag is Some && node.path.len() > 0 ==> may_answer(
        junction_exists,
        node.path,
        facts.junction,
    )
    &&& facts.valid.len() == cands.len()
    &&& forall|i: int|
        0 <= i < cands.len() ==> may_answer(
            link_valid,
            migs[cands[i]].source,
            #[trigger] facts.valid[i],
        )
    &&& match deciding(node, migs, facts) {
        Some(d) => may_answer(target_size, migs[d.0].target, facts.target_size),
        None => true,
    }
}

// ---------------------------------------------------------------------------
// Executable: one directory
// ---------------------------------------------------------------------------

/// Sets the annotations of one directory, given the preset that covers it,
/// whether it is a junction, and the migration that decides together with what
/// it makes of the directory and the size of its target.
pub fn annotate_node(
    node: &mut DirectoryNode,
    cfg: &Config,
    preset: Option<usize>,
    is_junction: bool,
    decision: Option<(&Migration, ScanItemStatus, Option<u64>)>,
)
    requires
        preset is Some ==> preset->0 < cfg.presets@.len(),
    ensures
        final(node)@ == (DirectoryNodeView {
            matched_preset: match preset {
                Some(i) => Some(cfg@.presets[i as int].id),
                None => None,
            },
            category: match preset {
                Some(i) => Some(cfg@.presets[i as int].category),
                None => None,
            },
            auto_migrate: match preset {
                Some(i) => cfg@.presets[i as int].auto_migrate,
                None => false,
            },
            is_junction,
            scan_status: match decision {
                Some(d) => Some(d.1),
                None => if is_junction {
                    Some(ScanItemStatus::ExistingLink)
                } else {
                    None
                },
            },
            migration_id: match decision {
                Some(d) => Some(d.0@.id),
                None => None,
            },
            linked_target_size_bytes: match decision {
                Some(d) => d.2,
                None => None,
            },
            visible: false,
            ..old(node)@
        }),
{
    match preset {
        Some(i) => {
            node.matched_preset = Some(cfg.presets[i].id.clone());
            node.category = Some(cfg.presets[i].category);
            node.auto_migrate = cfg.presets[i].auto_migrate;
        },
        None => {
            node.matched_preset = None;
            node.category = None;
            node.auto_migrate = false;
        },
    }
    node.is_junction = is_junction;
    node.visible = false;
    match decision {
        Some((migration, status, size)) => {
            node.migration_id = Some(migration.id.clone());
            node.linked_target_size_bytes = size;
            node.scan_status = Some(status);
        },
        None => {
            node.migration_id = None;
            node.linked_target_size_bytes = None;
            node.scan_status = if is_junction {
                Some(ScanItemStatus::ExistingLink)
            } else {
                None
            };
        },
    }
}

/// Asks the file system about one directory, and annotates it.
fn ask_and_annotate<J: Fn(&str) -> bool, L: Fn(&str) -> bool, T: Fn(&str) -> Option<u64>>(
    node: &mut DirectoryNode,
    cfg: &Config,
    migrations: &[Migration],
    context: &ScanContext,
    lookup: &MigrationLookup,
    junction_exists: &J,
    link_valid: &L,
    target_size: &T,
    Ghost(env): Ghost<EnvVarsView>,
) -> (facts: Ghost<NodeFacts>)
    requires
        context.describes(cfg@, env),
        lookup.describes(migrations_view(migrations@)),
        forall|s: &str| call_requires(*junction_exists, (s,)),
        forall|s: &str| call_requires(*link_valid, (s,)),
        forall|s: &str| call_requires(*target_size, (s,)),
    ensures
        facts_answered(
            old(node)@,
            migrations_view(migrations@),
            facts@,
            *junction_exists,
            *link_valid,
            *target_size,
        ),
        final(node)@ == annotated_node(
            old(node)@,
            cfg@,
            migrations_view(migrations@),
            env,
            facts@,
        ),
{
    let ghost migs = migrations_view(migrations@);
    let ghost n0 = node@;
    let path: String = normalize(node.path.as_str());
    let preset: Option<usize> = if path.as_str().is_empty() {
        None
    } else {
        context.preset_index(path.as_str())
    };
    proof {
        lemma_first_preset(cfg@.presets, env, path@, cfg@.presets.len());
        assert(cfg@.presets.len() == cfg.presets@.len());
    }
    let asked: bool = node.reparse_tag.is_some() && !node.path.as_str().is_empty();
    let answer: bool = if asked {
        junction_exists(node.path.as_str())
    } else {
        false
    };
    assert(asked ==> may_answer(*junction_exists, n0.path, answer));
    let is_junction: bool = asked && answer;
    let cands: Vec<usize> = lookup.find(path.as_str());
    let ghost at = candidates(migs, path@, migs.len());
    proof {
        lemma_candidates_bound(migs, path@, migs.len());
        assert(places(cands@) == at);
        assert forall|i: int| 0 <= i < cands@.len() implies (#[trigger] cands@[i])
            < migrations@.len() by {
            assert(at[i] == cands@[i]);
        }
    }
    let mut valid: Vec<bool> = Vec::new();
    let mut i: usize = 0;
    while i < cands.len()
        invariant
            i <= cands@.len(),
            valid@.len() == i,
            migs == migrations_view(migrations@),
            places(cands@) == at,
            forall|s: &str| call_requires(*link_valid, (s,)),
            forall|i: int| 0 <= i < cands@.len() ==> (#[trigger] cands@[i]) < migrations@.len(),
            forall|j: int|
                0 <= j < i ==> may_answer(
                    *link_valid,
                    migs[at[j]].source,
                    #[trigger] valid@[j],
                ),
        decreases cands@.len() - i,
    {
        let source: &str = migrations[cands[i]].source.as_str();
        let v: bool = link_valid(source);
        proof {
            assert(at[i as int] == cands@[i as int]);
            assert(migs[at[i as int]].source == source@);
            assert(may_answer(*link_valid, migs[at[i as int]].source, v));
        }
        valid.push(v);
        i += 1;
    }
    let selected: Option<(usize, ScanItemStatus)> = select_migration(migrations, &cands, &valid);
    let ghost w = winner(migs, at, valid@, at.len());
    proof {
        lemma_winner_bound(migs, at, valid@, at.len());
    }
    let mut size: Option<u64> = None;
    let decision: Option<(&Migration, ScanItemStatus, Option<u64>)> = match selected {
        Some((m, status)) => {
            assert(at[w->0] == cands@[w->0]);
            let target: &str = migrations[m].target.as_str();
            size = target_size(target);
            assert(migs[m as int].target == target@);
            assert(may_answer(*target_size, migs[m as int].target, size));
            Some((&migrations[m], status, size))
        },
        None => None,
    };
    let ghost facts = NodeFacts { junction: answer, valid: valid@, target_size: size };
    annotate_node(node, cfg, preset, is_junction, decision);
    proof {
        assert(deciding(n0, migs, facts) == match w {
            Some(x) => Some((at[x], candidate_status(migs, at, valid@, x))),
            None => None,
        });
        assert(covering_preset(n0, cfg@, env) == match preset {
            Some(x) => Some(x as int),
            None => None,
        });
    }
    Ghost(facts)
}

/// The winner is one of the candidates.
pub proof fn lemma_winner_bound(
    migs: Seq<MigrationView>,
    cands: Seq<int>,
    valid: Seq<bool>,
    n: nat,
)
    ensures
        match winner(migs, cands, valid, n) {
            Some(w) => 0 <= w < n,
            None => n == 0,
        },
    decreases n,
{
    if n > 0 {
        lemma_winner_bound(migs, cands, valid, (n - 1) as nat);
    }
}

// ---------------------------------------------------------------------------
// Executable: the graph
// ---------------------------------------------------------------------------

/// Asks about and annotates every directory.
fn annotate_all<J: Fn(&str) -> bool, L: Fn(&str) -> bool, T: Fn(&str) -> Option<u64>>(
    nodes: &mut RefMap<DirectoryNode>,
    cfg: &Config,
    migrations: &[Migration],
    context: &ScanContext,
    junction_exists: &J,
    link_valid: &L,
    target_size: &T,
    Ghost(env): Ghost<EnvVarsView>,
) -> (facts: Ghost<Map<FileRef, NodeFacts>>)
    requires
        old(nodes).wf(),
        context.describes(cfg@, env),
        forall|s: &str| call_requires(*junction_exists, (s,)),
        forall|s: &str| call_requires(*link_valid, (s,)),
        forall|s: &str| call_requires(*target_size, (s,)),
    ensures
        final(nodes).wf(),
        final(nodes).order() == old(nodes).order(),
        nodes_view(final(nodes)@) == annotated_nodes(
            nodes_view(old(nodes)@),
            cfg@,
            migrations_view(migrations@),
            env,
            facts@,
        ),
        forall|r: FileRef| #[trigger]
            old(nodes)@.contains_key(r) ==> facts_answered(
                old(nodes)@[r]@,
                migrations_view(migrations@),
                facts@[r],
                *junction_exists,
                *link_valid,
                *target_size,
            ),
{
    let ghost migs = migrations_view(migrations@);
    let lookup = MigrationLookup::new(migrations);
    let ghost v0 = nodes.vals();
    let ghost order = nodes.order();
    let ghost mut facts = Map::<FileRef, NodeFacts>::empty();
    proof {
        nodes.lemma_order();
    }
    let count: usize = nodes.len();
    let mut i: usize = 0;
    while i < count
        invariant
            i <= count,
            nodes.wf(),
            order == nodes.order(),
            order == old(nodes).order(),
            order.no_duplicates(),
            count == order.len(),
            v0 == old(nodes).vals(),
            v0.len() == count,
            nodes.vals().len() == count,
            migs == migrations_view(migrations@),
            context.describes(cfg@, env),
            lookup.describes(migs),
            forall|s: &str| call_requires(*junction_exists, (s,)),
            forall|s: &str| call_requires(*link_valid, (s,)),
            forall|s: &str| call_requires(*target_size, (s,)),
            forall|k: FileRef| #[trigger] nodes@.contains_key(k) == old(nodes)@.contains_key(k),
            forall|j: int|
                0 <= j < i ==> (#[trigger] nodes.vals()[j])@ == annotated_node(
                    v0[j]@,
                    cfg@,
                    migs,
                    env,
                    facts[order[j]],
                ),
            forall|j: int|
                0 <= j < i ==> facts_answered(
                    (#[trigger] v0[j])@,
                    migs,
                    facts[order[j]],
                    *junction_exists,
                    *link_valid,
                    *target_size,
                ),
            forall|j: int| i <= j < count ==> (#[trigger] nodes.vals()[j]) == v0[j],
        decreases count - i,
    {
        proof {
            nodes.lemma_order();
            assert(nodes.vals()[i as int] == v0[i as int]);
        }
        let slot = nodes.value_mut(i);
        let found = ask_and_annotate(
            slot,
            cfg,
            migrations,
            context,
            &lookup,
            junction_exists,
            link_valid,
            target_size,
            Ghost(env),
        );
        let ghost old_facts = facts;
        proof {
            facts = facts.insert(order[i as int], found@);
            nodes.lemma_order();
            assert forall|j: int| 0 <= j < i implies facts[#[trigger] order[j]] == old_facts[order[j]] by {
                assert(order[j] != order[i as int]);
            }
        }
        i += 1;
    }
    proof {
        nodes.lemma_order();
        old(nodes).lemma_order();
        let m = annotated_nodes(nodes_view(old(nodes)@), cfg@, migs, env, facts);
        assert forall|j: int| 0 <= j < nodes.order().len() implies (#[trigger] nodes.vals()[j])@
            == m[nodes.order()[j]] by {
            assert(old(nodes)@.contains_key(old(nodes).order()[j]));
        }
        lemma_nodes_by_place(nodes, m);
        assert forall|r: FileRef| #[trigger] old(nodes)@.contains_key(r) implies facts_answered(
            old(nodes)@[r]@,
            migs,
            facts[r],
            *junction_exists,
            *link_valid,
            *target_size,
        ) by {
            let j = choose|j: int|
                0 <= j < old(nodes).order().len() && #[trigger] old(nodes).order()[j] == r;
            assert(facts_answered(
                v0[j]@,
                migs,
                facts[order[j]],
                *junction_exists,
                *link_valid,
                *target_size,
            ));
        }
    }
    Ghost(facts)
}

/// Gives directories without a status of their own the status that comes from
/// below them.
fn spread_up(nodes: &mut RefMap<DirectoryNode>, children: &RefMap<Vec<FileRef>>)
    requires
        old(nodes).wf(),
        children.wf(),
    ensures
        final(nodes).wf(),
        final(nodes).order() == old(nodes).order(),
        nodes_view(final(nodes)@) == spread_nodes(
            nodes_view(old(nodes)@),
            children_view(children@),
        ),
{
    let ghost n0 = nodes_view(nodes@);
    let ghost edges = children_view(children@);
    let ghost v0 = nodes.vals();
    let ghost order = nodes.order();
    proof {
        nodes.lemma_order();
    }
    let parents = list_parents(nodes, children);
    let count: usize = nodes.len();
    let mut migrated: Vec<bool> = Vec::new();
    let mut linked: Vec<bool> = Vec::new();
    let mut f: usize = 0;
    while f < count
        invariant
            f <= count,
            nodes.wf(),
            order == nodes.order(),
            count == order.len(),
            n0 == nodes_view(nodes@),
            migrated@.len() == f,
            linked@.len() == f,
            forall|i: int|
                0 <= i < f ==> migrated@[i] == migrated_set(n0).contains(#[trigger] order[i]),
            forall|i: int|
                0 <= i < f ==> linked@[i] == junction_set(n0).contains(#[trigger] order[i]),
        decreases count - f,
    {
        proof {
            nodes.lemma_order();
            assert(nodes@.contains_key(order[f as int]));
        }
        let node: &DirectoryNode = nodes.value_at(f);
        assert(n0[order[f as int]] == node@);
        let exact: bool = match &node.scan_status {
            Some(s) => is_exact_migrated_status(s),
            None => false,
        };
        migrated.push(exact);
        linked.push(node.is_junction);
        f += 1;
    }
    proof {
        nodes.lemma_order();
    }
    let has_migrated = mark_holders(
        &parents,
        &migrated,
        Ghost(order),
        Ghost(n0),
        Ghost(edges),
        Ghost(migrated_set(n0)),
    );
    let has_link = mark_holders(
        &parents,
        &linked,
        Ghost(order),
        Ghost(n0),
        Ghost(edges),
        Ghost(junction_set(n0)),
    );
    let ghost m = spread_nodes(n0, edges);
    let mut i: usize = 0;
    while i < count
        invariant
            i <= count,
            nodes.wf(),
            old(nodes).wf(),
            order == nodes.order(),
            order == old(nodes).order(),
            count == order.len(),
            n0 == nodes_view(old(nodes)@),
            m == spread_nodes(n0, edges),
            v0 == old(nodes).vals(),
            v0.len() == count,
            nodes.vals().len() == count,
            has_migrated@.len() == count,
            has_link@.len() == count,
            forall|j: int|
                0 <= j < order.len() ==> has_migrated@[j] == holds(
                    n0,
                    edges,
                    migrated_set(n0),
                    #[trigger] order[j],
                ),
            forall|j: int|
                0 <= j < order.len() ==> has_link@[j] == holds(
                    n0,
                    edges,
                    junction_set(n0),
                    #[trigger] order[j],
                ),
            forall|k: FileRef| #[trigger] nodes@.contains_key(k) == old(nodes)@.contains_key(k),
            forall|j: int| 0 <= j < i ==> (#[trigger] nodes.vals()[j])@ == m[order[j]],
            forall|j: int| i <= j < count ==> (#[trigger] nodes.vals()[j]) == v0[j],
        decreases count - i,
    {
        proof {
            nodes.lemma_order();
            old(nodes).lemma_order();
            assert(nodes.vals()[i as int] == v0[i as int]);
            assert(old(nodes)@.contains_key(order[i as int]));
            assert(n0[order[i as int]] == v0[i as int]@);
        }
        if nodes.value_at(i).scan_status.is_none() {
            if has_migrated[i] {
                let slot = nodes.value_mut(i);
                slot.scan_status = Some(ScanItemStatus::ContainsMigrated);
            } else if has_link[i] {
                let slot = nodes.value_mut(i);
                slot.scan_status = Some(ScanItemStatus::ContainsLink);
            }
        }
        proof {
            nodes.lemma_order();
        }
        i += 1;
    }
    proof {
        nodes.lemma_order();
        lemma_nodes_by_place(nodes, m);
    }
}

/// Decides which directories are shown.
fn decide_shown(nodes: &mut RefMap<DirectoryNode>, children: &RefMap<Vec<FileRef>>, min_bytes: u64)
    requires
        old(nodes).wf(),
        children.wf(),
    ensures
        final(nodes).wf(),
        final(nodes).order() == old(nodes).order(),
        nodes_view(final(nodes)@) == shown_nodes(
            nodes_view(old(nodes)@),
            children_view(children@),
            min_bytes,
        ),
{
    let ghost n0 = nodes_view(nodes@);
    let ghost edges = children_view(children@);
    let ghost v0 = nodes.vals();
    let ghost order = nodes.order();
    let ghost seeds = forced_set(n0, min_bytes);
    proof {
        nodes.lemma_order();
    }
    let parents = list_parents(nodes, children);
    let count: usize = nodes.len();
    let mut forced: Vec<bool> = Vec::new();
    let mut f: usize = 0;
    while f < count
        invariant
            f <= count,
            nodes.wf(),
            order == nodes.order(),
            count == order.len(),
            n0 == nodes_view(nodes@),
            seeds == forced_set(n0, min_bytes),
            forced@.len() == f,
            forall|i: int| 0 <= i < f ==> forced@[i] == seeds.contains(#[trigger] order[i]),
        decreases count - f,
    {
        proof {
            nodes.lemma_order();
            assert(nodes@.contains_key(order[f as int]));
        }
        let node: &DirectoryNode = nodes.value_at(f);
        assert(n0[order[f as int]] == node@);
        forced.push(
            node.subtree_size_bytes >= min_bytes || node.matched_preset.is_some()
                || node.scan_status.is_some() || node.access_state == AccessState::Inaccessible,
        );
        f += 1;
    }
    proof {
        nodes.lemma_order();
    }
    let shown = mark_holders(
        &parents,
        &forced,
        Ghost(order),
        Ghost(n0),
        Ghost(edges),
        Ghost(seeds),
    );
    let ghost m = shown_nodes(n0, edges, min_bytes);
    let mut i: usize = 0;
    while i < count
        invariant
            i <= count,
            nodes.wf(),
            old(nodes).wf(),
            order == nodes.order(),
            order == old(nodes).order(),
            count == order.len(),
            n0 == nodes_view(old(nodes)@),
            m == shown_nodes(n0, edges, min_bytes),
            seeds == forced_set(n0, min_bytes),
            v0 == old(nodes).vals(),
            v0.len() == count,
            nodes.vals().len() == count,
            shown@.len() == count,
            forall|j: int|
                0 <= j < order.len() ==> shown@[j] == holds(n0, edges, seeds, #[trigger] order[j]),
            forall|k: FileRef| #[trigger] nodes@.contains_key(k) == old(nodes)@.contains_key(k),
            forall|j: int| 0 <= j < i ==> (#[trigger] nodes.vals()[j])@ == m[order[j]],
            forall|j: int| i <= j < count ==> (#[trigger] nodes.vals()[j]) == v0[j],
        decreases count - i,
    {
        proof {
            nodes.lemma_order();
            old(nodes).lemma_order();
            assert(nodes.vals()[i as int] == v0[i as int]);
            assert(old(nodes)@.contains_key(order[i as int]));
            assert(n0[order[i as int]] == v0[i as int]@);
            assert(shown@[i as int] == holds(n0, edges, seeds, order[i as int]));
        }
        let slot = nodes.value_mut(i);
        slot.visible = !slot.excluded && shown[i];
        proof {
            nodes.lemma_order();
        }
        i += 1;
    }
    proof {
        nodes.lemma_order();
        lemma_nodes_by_place(nodes, m);
    }
}

/// The totals of the files directly in the root directory. Records that were
/// skipped make them incomplete.
pub fn build_root_summary(graph: &DirectoryGraph, skipped_records: u64) -> (r: RootFileSummary)
    requires
        graph.wf(),
    ensures
        r == root_summary(graph@, skipped_records),
{
    let (size, count): (u64, u64) = match graph.nodes.get(&graph.root) {
        Some(node) => (node.direct_file_size_bytes, node.direct_file_count),
        None => (0, 0),
    };
    RootFileSummary {
        direct_file_size_bytes: size,
        direct_file_count: count,
        system_metadata_size_bytes: Some(graph.system_metadata_size_bytes),
        total_known_size_bytes: size.saturating_add(graph.system_metadata_size_bytes),
        incomplete: skipped_records > 0,
    }
}

/// Annotates the graph and sums up the root directory. `junction_exists` is
/// asked about directories with a reparse tag, `link_valid` about the sources
/// of migrations of directories in the graph, and `target_size` about the
/// target of the migration that decides; it answers nothing where that target
/// does not exist.
pub fn annotate_graph_with_callbacks<
    J: Fn(&str) -> bool,
    L: Fn(&str) -> bool,
    T: Fn(&str) -> Option<u64>,
>(
    graph: &mut DirectoryGraph,
    cfg: &Config,
    migrations: &[Migration],
    env: &EnvVars,
    junction_exists: &J,
    link_valid: &L,
    target_size: &T,
    skipped_records: u64,
) -> (r: RootFileSummary)
    requires
        old(graph).wf(),
        forall|s: &str| call_requires(*junction_exists, (s,)),
        forall|s: &str| call_requires(*link_valid, (s,)),
        forall|s: &str| call_requires(*target_size, (s,)),
    ensures
        final(graph).wf(),
        r == root_summary(final(graph)@, skipped_records),
        annotated_by(
            old(graph)@,
            final(graph)@,
            cfg@,
            migrations_view(migrations@),
            env@,
            (LinkProbes {
                junction_exists: *junction_exists,
                link_valid: *link_valid,
                target_size: *target_size,
            }),
        ),
{
    let ghost g0 = graph@;
    let context = ScanContext::new(cfg, env);
    let found = annotate_all(
        &mut graph.nodes,
        cfg,
        migrations,
        &context,
        junction_exists,
        link_valid,
        target_size,
        Ghost(env@),
    );
    spread_up(&mut graph.nodes, &graph.children);
    decide_shown(&mut graph.nodes, &graph.children, context.min_bytes());
    proof {
        assert(graph@ == annotated(g0, cfg@, migrations_view(migrations@), env@, found@));
        assert forall|r: FileRef| #[trigger] g0.nodes.contains_key(r) implies facts_answered(
            g0.nodes[r],
            migrations_view(migrations@),
            found@[r],
            *junction_exists,
            *link_valid,
            *target_size,
        ) by {
            assert(old(graph).nodes@.contains_key(r));
        }
    }
    build_root_summary(graph, skipped_records)
}

/// Annotates the graph of an index of which `skipped_records` were skipped.
pub fn annotate_graph_with_skipped_records<
    J: Fn(&str) -> bool,
    L: Fn(&str) -> bool,
    T: Fn(&str) -> Option<u64>,
>(
    graph: &mut DirectoryGraph,
    cfg: &Config,
    migrations: &[Migration],
    env: &EnvVars,
    probes: &LinkProbes<J, L, T>,
    skipped_records: u64,
) -> (r: RootFileSummary)
    requires
        old(graph).wf(),
        probes.ready(),
    ensures
        final(graph).wf(),
        r == root_summary(final(graph)@, skipped_records),
        annotated_by(old(graph)@, final(graph)@, cfg@, migrations_view(migrations@), env@, *probes),
{
    annotate_graph_with_callbacks(
        graph,
        cfg,
        migrations,
        env,
        &probes.junction_exists,
        &probes.link_valid,
        &probes.target_size,
        skipped_records,
    )
}

/// Annotates the graph of an index of which nothing was skipped.
pub fn annotate_graph<J: Fn(&str) -> bool, L: Fn(&str) -> bool, T: Fn(&str) -> Option<u64>>(
    graph: &mut DirectoryGraph,
    cfg: &Config,
    migrations: &[Migration],
    env: &EnvVars,
    probes: &LinkProbes<J, L, T>,
) -> (r: RootFileSummary)
    requires
        old(graph).wf(),
        probes.ready(),
    ensures
        final(graph).wf(),
        r == root_summary(final(graph)@, 0),
        annotated_by(old(graph)@, final(graph)@, cfg@, migrations_view(migrations@), env@, *probes),
{
    annotate_graph_with_skipped_records(graph, cfg, migrations, env, probes, 0)
}

/// Questions to the file system about links.
pub struct LinkProbes<J, L, T> {
    /// Whether the path is a junction.
    pub junction_exists: J,
    /// Whether the path is a link that resolves.
    pub link_valid: L,
    /// The size of the directory, where it exists.
    pub target_size: T,
}

impl<J: Fn(&str) -> bool, L: Fn(&str) -> bool, T: Fn(&str) -> Option<u64>> LinkProbes<J, L, T> {
    /// The questions may be asked about any path.
    pub open spec fn ready(&self) -> bool {
        &&& forall|s: &str| call_requires(self.junction_exists, (s,))
        &&& forall|s: &str| call_requires(self.link_valid, (s,))
        &&& forall|s: &str| call_requires(self.target_size, (s,))
    }
}

/// The graph `h` is `g` with annotations according to answers that were given.
pub open spec fn annotated_by<J: Fn(&str) -> bool, L: Fn(&str) -> bool, T: Fn(&str) -> Option<u64>>(
    g: GraphView,
    h: GraphView,
    cfg: ConfigView,
    migs: Seq<MigrationView>,
    env: EnvVarsView,
    probes: LinkProbes<J, L, T>,
) -> bool {
    exists|facts: Map<FileRef, NodeFacts>|
        {
            &&& h == #[trigger] annotated(g, cfg, migs, env, facts)
            &&& forall|r: FileRef| #[trigger]
                g.nodes.contains_key(r) ==> facts_answered(
                    g.nodes[r],
                    migs,
                    facts[r],
                    probes.junction_exists,
                    probes.link_valid,
                    probes.target_size,
                )
        }
}

// ---------------------------------------------------------------------------
// Laws
// ---------------------------------------------------------------------------

/// What is excluded is not shown.
pub proof fn law_excluded_is_hidden(
    g: GraphView,
    cfg: ConfigView,
    migs: Seq<MigrationView>,
    env: EnvVarsView,
    facts: Map<FileRef, NodeFacts>,
    r: FileRef,
)
    requires
        g.nodes.contains_key(r),
        g.nodes[r].excluded,
    ensures
        !annotated(g, cfg, migs, env, facts).nodes[r].visible,
{
}

/// What is large, covered by a preset, migrated, linked or not accessible is
/// shown, unless it is excluded.
pub proof fn law_notable_is_shown(
    g: GraphView,
    cfg: ConfigView,
    migs: Seq<MigrationView>,
    env: EnvVarsView,
    facts: Map<FileRef, NodeFacts>,
    r: FileRef,
)
    requires
        g.nodes.contains_key(r),
        !g.nodes[r].excluded,
        is_forced(annotated(g, cfg, migs, env, facts).nodes[r], min_bytes_of(cfg.scan.min_size_mb)),
    ensures
        annotated(g, cfg, migs, env, facts).nodes[r].visible,
{
    let spread = spread_nodes(annotated_nodes(g.nodes, cfg, migs, env, facts), g.children);
    let seeds = forced_set(spread, min_bytes_of(cfg.scan.min_size_mb));
    assert(seeds.contains(r));
    assert(holds_at(spread, g.children, seeds, r, 0));
    assert(holds(spread, g.children, seeds, r));
}

/// Everything that is shown can be reached: what lies above it is shown too,
/// unless it is excluded.
pub proof fn law_way_to_shown_is_shown(
    g: GraphView,
    cfg: ConfigView,
    migs: Seq<MigrationView>,
    env: EnvVarsView,
    facts: Map<FileRef, NodeFacts>,
    p: FileRef,
    r: FileRef,
)
    requires
        inner_edge(g.nodes, g.children, p, r),
        annotated(g, cfg, migs, env, facts).nodes[r].visible,
        !g.nodes[p].excluded,
    ensures
        annotated(g, cfg, migs, env, facts).nodes[p].visible,
{
    let spread = spread_nodes(annotated_nodes(g.nodes, cfg, migs, env, facts), g.children);
    let seeds = forced_set(spread, min_bytes_of(cfg.scan.min_size_mb));
    lemma_holds_above(spread, g.children, seeds, p, r);
}

/// What a directory holds, its parent holds.
proof fn lemma_holds_above(
    nodes: Map<FileRef, DirectoryNodeView>,
    children: Map<FileRef, Seq<FileRef>>,
    seeds: Set<FileRef>,
    p: FileRef,
    r: FileRef,
)
    requires
        inner_edge(nodes, children, p, r),
        holds(nodes, children, seeds, r),
    ensures
        holds(nodes, children, seeds, p),
{
    let k = choose|k: nat| holds_at(nodes, children, seeds, r, k);
    let m: nat = k + 1;
    assert((m - 1) as nat == k);
    assert(holds_at(nodes, children, seeds, p, m));
}

/// What comes from below never replaces what a directory has by itself.
pub proof fn law_own_status_is_kept(
    g: GraphView,
    cfg: ConfigView,
    migs: Seq<MigrationView>,
    env: EnvVarsView,
    facts: Map<FileRef, NodeFacts>,
    r: FileRef,
)
    requires
        g.nodes.contains_key(r),
        annotated_node(g.nodes[r], cfg, migs, env, facts[r]).scan_status is Some,
    ensures
        annotated(g, cfg, migs, env, facts).nodes[r].scan_status == annotated_node(
            g.nodes[r],
            cfg,
            migs,
            env,
            facts[r],
        ).scan_status,
{
}

/// A directory above a migrated one says so, unless it has something of its
/// own to say.
pub proof fn law_migration_is_seen_from_above(
    g: GraphView,
    cfg: ConfigView,
    migs: Seq<MigrationView>,
    env: EnvVarsView,
    facts: Map<FileRef, NodeFacts>,
    p: FileRef,
    r: FileRef,
)
    requires
        inner_edge(g.nodes, g.children, p, r),
        annotated_node(g.nodes[p], cfg, migs, env, facts[p]).scan_status is None,
        ({
            let s = annotated(g, cfg, migs, env, facts).nodes[r].scan_status;
            s is Some && (is_exact_status(s->0) || s->0 == ScanItemStatus::ContainsMigrated)
        }),
    ensures
        annotated(g, cfg, migs, env, facts).nodes[p].scan_status == Some(
            ScanItemStatus::ContainsMigrated,
        ),
{
    let own = annotated_nodes(g.nodes, cfg, migs, env, facts);
    let seeds = migrated_set(own);
    if own[r].scan_status is Some {
        assert(seeds.contains(r));
        assert(holds_at(own, g.children, seeds, r, 0));
    }
    assert(holds(own, g.children, seeds, r));
    lemma_holds_above(own, g.children, seeds, p, r);
}

/// A question that is asked twice is answered alike.
pub open spec fn answers_alike<A, F: Fn(&str) -> A>(ask: F) -> bool {
    forall|text: Seq<char>, a: A, b: A|
        #![trigger may_answer(ask, text, a), may_answer(ask, text, b)]
        may_answer(ask, text, a) && may_answer(ask, text, b) ==> a == b
}

/// One directory is annotated alike before and after it was annotated.
proof fn lemma_node_again<J: Fn(&str) -> bool, L: Fn(&str) -> bool, T: Fn(&str) -> Option<u64>>(
    node: DirectoryNodeView,
    again: DirectoryNodeView,
    cfg: ConfigView,
    migs: Seq<MigrationView>,
    env: EnvVarsView,
    probes: LinkProbes<J, L, T>,
    facts: NodeFacts,
    later: NodeFacts,
)
    requires
        answers_alike(probes.junction_exists),
        answers_alike(probes.link_valid),
        answers_alike(probes.target_size),
        facts_answered(
            node,
            migs,
            facts,
            probes.junction_exists,
            probes.link_valid,
            probes.target_size,
        ),
        facts_answered(
            again,
            migs,
            later,
            probes.junction_exists,
            probes.link_valid,
            probes.target_size,
        ),
        again == (DirectoryNodeView {
            scan_status: again.scan_status,
            visible: again.visible,
            ..annotated_node(node, cfg, migs, env, facts)
        }),
    ensures
        annotated_node(again, cfg, migs, env, later) == annotated_node(node, cfg, migs, env, facts),
{
    assert(again.path == node.path && again.reparse_tag == node.reparse_tag);
    assert(facts.valid =~= later.valid) by {
        let cands = candidates(migs, normalized(node.path), migs.len());
        assert forall|i: int| 0 <= i < cands.len() implies facts.valid[i] == later.valid[i] by {
            assert(may_answer(probes.link_valid, migs[cands[i]].source, facts.valid[i]));
            assert(may_answer(probes.link_valid, migs[cands[i]].source, later.valid[i]));
        }
    }
}

/// Annotating a graph a second time, with the same settings and migrations and
/// with questions that are answered alike, changes nothing, and the summary of the
/// root directory is the same.
pub proof fn law_annotating_again_changes_nothing<
    J: Fn(&str) -> bool,
    L: Fn(&str) -> bool,
    T: Fn(&str) -> Option<u64>,
>(
    g: GraphView,
    h: GraphView,
    k: GraphView,
    cfg: ConfigView,
    migs: Seq<MigrationView>,
    env: EnvVarsView,
    probes: LinkProbes<J, L, T>,
    skipped_records: u64,
)
    requires
        answers_alike(probes.junction_exists),
        answers_alike(probes.link_valid),
        answers_alike(probes.target_size),
        annotated_by(g, h, cfg, migs, env, probes),
        annotated_by(h, k, cfg, migs, env, probes),
    ensures
        k == h,
        root_summary(k, skipped_records) == root_summary(h, skipped_records),
        root_summary(h, skipped_records) == root_summary(g, skipped_records),
{
    let facts = choose|facts: Map<FileRef, NodeFacts>|
        {
            &&& h == #[trigger] annotated(g, cfg, migs, env, facts)
            &&& forall|r: FileRef| #[trigger]
                g.nodes.contains_key(r) ==> facts_answered(
                    g.nodes[r],
                    migs,
                    facts[r],
                    probes.junction_exists,
                    probes.link_valid,
                    probes.target_size,
                )
        };
    let later = choose|later: Map<FileRef, NodeFacts>|
        {
            &&& k == #[trigger] annotated(h, cfg, migs, env, later)
            &&& forall|r: FileRef| #[trigger]
                h.nodes.contains_key(r) ==> facts_answered(
                    h.nodes[r],
                    migs,
                    later[r],
                    probes.junction_exists,
                    probes.link_valid,
                    probes.target_size,
                )
        };
    let own = annotated_nodes(g.nodes, cfg, migs, env, facts);
    let own_later = annotated_nodes(h.nodes, cfg, migs, env, later);
    assert forall|r: FileRef| #[trigger] own.contains_key(r) implies own[r] == own_later[r] by {
        assert(g.nodes.contains_key(r) && h.nodes.contains_key(r));
        lemma_node_again(g.nodes[r], h.nodes[r], cfg, migs, env, probes, facts[r], later[r]);
    }
    assert(own =~= own_later);
}

} // verus!
