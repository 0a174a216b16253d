//! What a scan knows about presets and migrations before it looks at a
//! directory.

use crate::models::{
    migrations_view, presets_view, Config, ConfigView, Migration, MigrationStatus, MigrationView,
    PresetView, ScanItemStatus,
};
use crate::paths::{expand_env, normal_expanded, normalize, normalized, EnvVars, EnvVarsView};
use vstd::hash_map::StringHashMap;
use vstd::prelude::*;

verus! {

// ---------------------------------------------------------------------------
// Presets
// ---------------------------------------------------------------------------

/// One of the first `n` paths of the preset has the normal form `p`.
pub open spec fn preset_names(preset: PresetView, env: EnvVarsView, p: Seq<char>, n: nat) -> bool {
    exists|j: int|
        0 <= j < n && #[trigger] normal_expanded(preset.match_paths[j], env) == p
}

/// The first of the first `n` presets that names the path with the normal form `p`.
pub open spec fn first_preset(
    presets: Seq<PresetView>,
    env: EnvVarsView,
    p: Seq<char>,
    n: nat,
) -> Option<int>
    decreases n,
{
    if n == 0 {
        None
    } else if first_preset(presets, env, p, (n - 1) as nat) is Some {
        first_preset(presets, env, p, (n - 1) as nat)
    } else if preset_names(presets[n - 1], env, p, presets[n - 1].match_paths.len()) {
        Some(n - 1)
    } else {
        None
    }
}

/// The smallest size that is shown on account of the size alone.
pub open spec fn min_bytes_of(min_size_mb: u64) -> u64 {
    if min_size_mb * 0x10_0000 > u64::MAX {
        u64::MAX
    } else {
        (min_size_mb * 0x10_0000) as u64
    }
}

/// The presets by path, and the smallest size that is shown.
pub struct ScanContext {
    preset_by_path: StringHashMap<usize>,
    min_bytes: u64,
}

impl ScanContext {
    /// The preset that is filed under the normal form `p`.
    pub closed spec fn preset_at(&self, p: Seq<char>) -> Option<int> {
        if self.preset_by_path@.contains_key(p) {
            Some(self.preset_by_path@[p] as int)
        } else {
            None
        }
    }

    /// The smallest size that is shown on account of the size alone.
    pub closed spec fn least_size(&self) -> u64 {
        self.min_bytes
    }

    /// The context is that of the presets and the size.
    pub open spec fn describes(&self, cfg: ConfigView, env: EnvVarsView) -> bool {
        &&& self.least_size() == min_bytes_of(cfg.scan.min_size_mb)
        &&& forall|p: Seq<char>| #[trigger]
            self.preset_at(p) == first_preset(cfg.presets, env, p, cfg.presets.len())
    }

    /// Reads the presets and the size from the configuration.
    pub fn new(cfg: &Config, env: &EnvVars) -> (r: Self)
        ensures
            r.describes(cfg@, env@),
    {
        let ghost presets = presets_view(cfg.presets@);
        let mut map: StringHashMap<usize> = StringHashMap::new();
        let mut i: usize = 0;
        while i < cfg.presets.len()
            invariant
                i <= cfg.presets@.len(),
                presets == presets_view(cfg.presets@),
                forall|p: Seq<char>|
                    #![trigger map@.contains_key(p)]
                    match first_preset(presets, env@, p, i as nat) {
                        Some(k) => map@.contains_key(p) && map@[p] == k,
                        None => !map@.contains_key(p),
                    },
            decreases cfg.presets@.len() - i,
        {
            let ghost before = map@;
            let ghost preset = presets[i as int];
            assert(preset == cfg.presets@[i as int]@);
            let mut j: usize = 0;
            while j < cfg.presets[i].match_paths.len()
                invariant
                    i < cfg.presets@.len(),
                    j <= cfg.presets@[i as int].match_paths@.len(),
                    presets == presets_view(cfg.presets@),
                    preset == cfg.presets@[i as int]@,
                    forall|p: Seq<char>|
                        #![trigger map@.contains_key(p)]
                        #![trigger before.contains_key(p)]
                        if before.contains_key(p) {
                            map@.contains_key(p) && map@[p] == before[p]
                        } else if preset_names(preset, env@, p, j as nat) {
                            map@.contains_key(p) && map@[p] == i
                        } else {
                            !map@.contains_key(p)
                        },
                decreases cfg.presets@[i as int].match_paths@.len() - j,
            {
                let path: String = normalize(
                    expand_env(cfg.presets[i].match_paths[j].as_str(), env).as_str(),
                );
                let ghost middle = map@;
                assert(preset.match_paths[j as int] == cfg.presets@[i as int].match_paths@[j as int]@);
                if !map.contains_key(path.as_str()) {
                    map.insert(path.clone(), i);
                }
                proof {
                    assert(normal_expanded(preset.match_paths[j as int], env@) == path@);
                    assert forall|p: Seq<char>|
                        #![trigger map@.contains_key(p)]
                        #![trigger before.contains_key(p)]
                        if before.contains_key(p) {
                            map@.contains_key(p) && map@[p] == before[p]
                        } else if preset_names(preset, env@, p, (j + 1) as nat) {
                            map@.contains_key(p) && map@[p] == i
                        } else {
                            !map@.contains_key(p)
                        } by {
                        assert(middle.contains_key(p) == middle.contains_key(p));
                        assert(preset_names(preset, env@, p, (j + 1) as nat) == (preset_names(
                            preset,
                            env@,
                            p,
                            j as nat,
                        ) || p == path@));
                    }
                }
                j += 1;
            }
            i += 1;
            proof {
                assert forall|p: Seq<char>|
                    #![trigger map@.contains_key(p)]
                    match first_preset(presets, env@, p, i as nat) {
                        Some(k) => map@.contains_key(p) && map@[p] == k,
                        None => !map@.contains_key(p),
                    } by {
                    assert(before.contains_key(p) == before.contains_key(p));
                }
            }
        }
        let min_bytes: u64 = match cfg.scan.min_size_mb.checked_mul(0x10_0000) {
            Some(v) => v,
            None => u64::MAX,
        };
        let context = ScanContext { preset_by_path: map, min_bytes };
        proof {
            assert forall|p: Seq<char>| #[trigger]
                context.preset_at(p) == first_preset(presets, env@, p, presets.len()) by {
                assert(map@.contains_key(p) || !map@.contains_key(p));
            }
        }
        context
    }

    /// The preset that names the path with the given normal form.
    pub fn preset_index(&self, normalized_path: &str) -> (r: Option<usize>)
        ensures
            match r {
                Some(i) => self.preset_at(normalized_path@) == Some(i as int),
                None => self.preset_at(normalized_path@) is None,
            },
    {
        match self.preset_by_path.get(normalized_path) {
            Some(i) => Some(*i),
            None => None,
        }
    }

    /// The smallest size that is shown on account of the size alone.
    pub fn min_bytes(&self) -> (r: u64)
        ensures
            r == self.least_size(),
    {
        self.min_bytes
    }
}

/// What the preset lookup finds names the path.
pub proof fn lemma_first_preset(presets: Seq<PresetView>, env: EnvVarsView, p: Seq<char>, n: nat)
    ensures
        match first_preset(presets, env, p, n) {
            Some(i) => 0 <= i < n && preset_names(presets[i], env, p, presets[i].match_paths.len()),
            None => forall|i: int|
                0 <= i < n ==> !preset_names(
                    #[trigger] presets[i],
                    env,
                    p,
                    presets[i].match_paths.len(),
                ),
        },
    decreases n,
{
    if n > 0 {
        lemma_first_preset(presets, env, p, (n - 1) as nat);
    }
}

// ---------------------------------------------------------------------------
// Migrations
// ---------------------------------------------------------------------------

/// The migration still stands for a link at its source.
pub open spec fn stands_for_link(status: MigrationStatus) -> bool {
    status != MigrationStatus::TargetPendingDelete
}

/// Whether the migration still stands for a link at its source.
pub fn represents_migrated_link(status: &MigrationStatus) -> (r: bool)
    ensures
        r == stands_for_link(*status),
{
    *status != MigrationStatus::TargetPendingDelete
}

/// The migration's link lies at the path with the normal form `p`.
pub open spec fn is_candidate(m: MigrationView, p: Seq<char>) -> bool {
    stands_for_link(m.status) && p.len() > 0 && normalized(m.source) == p
}

/// Those of the first `n` migrations whose link lies at the path with the
/// normal form `p`.
pub open spec fn candidates(migs: Seq<MigrationView>, p: Seq<char>, n: nat) -> Seq<int>
    decreases n,
{
    if n == 0 {
        Seq::empty()
    } else {
        let before = candidates(migs, p, (n - 1) as nat);
        if is_candidate(migs[n - 1], p) {
            before.push(n - 1)
        } else {
            before
        }
    }
}

/// What the migration makes of the directory, given whether its link resolves.
pub open spec fn status_of(status: MigrationStatus, link_valid: bool) -> ScanItemStatus {
    if !link_valid {
        ScanItemStatus::LinkBroken
    } else if status == MigrationStatus::Active {
        ScanItemStatus::Migrated
    } else {
        ScanItemStatus::MigrationPending
    }
}

/// What the migration makes of the directory, given whether its link resolves.
pub fn migration_scan_status(migration: &Migration, link_valid: bool) -> (r: ScanItemStatus)
    ensures
        r == status_of(migration.status, link_valid),
{
    if !link_valid {
        ScanItemStatus::LinkBroken
    } else if migration.status == MigrationStatus::Active {
        ScanItemStatus::Migrated
    } else {
        ScanItemStatus::MigrationPending
    }
}

/// Which status wins where several migrations have the same source.
pub open spec fn priority(status: ScanItemStatus) -> int {
    match status {
        ScanItemStatus::LinkBroken => 4,
        ScanItemStatus::MigrationPending => 3,
        ScanItemStatus::Migrated => 2,
        _ => 0,
    }
}

/// Which status wins where several migrations have the same source.
pub fn scan_status_priority(status: &ScanItemStatus) -> (r: u8)
    ensures
        r == priority(*status),
{
    match status {
        ScanItemStatus::LinkBroken => 4,
        ScanItemStatus::MigrationPending => 3,
        ScanItemStatus::Migrated => 2,
        _ => 0,
    }
}

/// The status stems from a migration of the directory itself.
pub open spec fn is_exact_status(status: ScanItemStatus) -> bool {
    status == ScanItemStatus::Migrated || status == ScanItemStatus::MigrationPending || status
        == ScanItemStatus::LinkBroken
}

/// Whether the status stems from a migration of the directory itself.
pub fn is_exact_migrated_status(status: &ScanItemStatus) -> (r: bool)
    ensures
        r == is_exact_status(*status),
{
    *status == ScanItemStatus::Migrated || *status == ScanItemStatus::MigrationPending || *status
        == ScanItemStatus::LinkBroken
}

/// The status that candidate `i` gives, where `valid` says which links resolve.
pub open spec fn candidate_status(
    migs: Seq<MigrationView>,
    cands: Seq<int>,
    valid: Seq<bool>,
    i: int,
) -> ScanItemStatus {
    status_of(migs[cands[i]].status, valid[i])
}

/// The place of the winner among the first `n` candidates: the last one with
/// the highest priority.
pub open spec fn winner(
    migs: Seq<MigrationView>,
    cands: Seq<int>,
    valid: Seq<bool>,
    n: nat,
) -> Option<int>
    decreases n,
{
    if n == 0 {
        None
    } else {
        match winner(migs, cands, valid, (n - 1) as nat) {
            None => Some(n - 1),
            Some(w) => if priority(candidate_status(migs, cands, valid, n - 1)) >= priority(
                candidate_status(migs, cands, valid, w),
            ) {
                Some(n - 1)
            } else {
                Some(w)
            },
        }
    }
}

/// The places of the candidates as integers.
pub open spec fn places(v: Seq<usize>) -> Seq<int> {
    Seq::new(v.len(), |i: int| v[i] as int)
}

/// Selects the migration that decides, given which links resolve.
pub fn select_migration(migrations: &[Migration], cands: &Vec<usize>, valid: &Vec<bool>) -> (r:
    Option<(usize, ScanItemStatus)>)
    requires
        cands@.len() == valid@.len(),
        forall|i: int| 0 <= i < cands@.len() ==> (#[trigger] cands@[i]) < migrations@.len(),
    ensures
        match winner(migrations_view(migrations@), places(cands@), valid@, cands@.len()) {
            None => r is None,
            Some(w) => r == Some(
                (
                    cands@[w],
                    candidate_status(
                        migrations_view(migrations@),
                        places(cands@),
                        valid@,
                        w,
                    ),
                ),
            ),
        },
{
    let ghost migs = migrations_view(migrations@);
    let ghost at = places(cands@);
    let mut best: Option<(usize, ScanItemStatus)> = None;
    let mut i: usize = 0;
    while i < cands.len()
        invariant
            i <= cands@.len(),
            cands@.len() == valid@.len(),
            migs == migrations_view(migrations@),
            at == places(cands@),
            forall|i: int| 0 <= i < cands@.len() ==> (#[trigger] cands@[i]) < migrations@.len(),
            match winner(migs, at, valid@, i as nat) {
                None => best is None,
                Some(w) => 0 <= w < i && best == Some(
                    (cands@[w], candidate_status(migs, at, valid@, w)),
                ),
            },
        decreases cands@.len() - i,
    {
        let c: usize = cands[i];
        let status = migration_scan_status(&migrations[c], valid[i]);
        assert(migs[c as int] == migrations@[c as int]@);
        assert(status == candidate_status(migs, at, valid@, i as int));
        let better: bool = match &best {
            None => true,
            Some((_, s)) => scan_status_priority(&status) >= scan_status_priority(s),
        };
        if better {
            best = Some((c, status));
        }
        i += 1;
    }
    best
}

/// The migrations by the normal form of their source.
pub struct MigrationLookup {
    by_source: StringHashMap<Vec<usize>>,
}

impl MigrationLookup {
    /// The migrations that are filed under the normal form `p`.
    pub closed spec fn filed_at(&self, p: Seq<char>) -> Seq<int> {
        if self.by_source@.contains_key(p) {
            places(self.by_source@[p]@)
        } else {
            Seq::empty()
        }
    }

    /// The lookup is that of the migrations.
    pub open spec fn describes(&self, migs: Seq<MigrationView>) -> bool {
        forall|p: Seq<char>| #[trigger] self.filed_at(p) == candidates(migs, p, migs.len())
    }

    /// Files the migrations that still stand for a link under their source.
    pub fn new(migrations: &[Migration]) -> (r: Self)
        ensures
            r.describes(migrations_view(migrations@)),
    {
        let ghost migs = migrations_view(migrations@);
        let mut map: StringHashMap<Vec<usize>> = StringHashMap::new();
        let mut i: usize = 0;
        while i < migrations.len()
            invariant
                i <= migrations@.len(),
                migs == migrations_view(migrations@),
                lookup_ok(map@, migs, i as nat),
            decreases migrations@.len() - i,
        {
            let m: &Migration = &migrations[i];
            assert(migs[i as int] == m@);
            let source: String = normalize(m.source.as_str());
            let ghost before = map@;
            if represents_migrated_link(&m.status) && !source.as_str().is_empty() {
                let mut list: Vec<usize> = Vec::new();
                match map.get(source.as_str()) {
                    Some(old_list) => {
                        let mut j: usize = 0;
                        while j < old_list.len()
                            invariant
                                j <= old_list@.len(),
                                list@ =~= old_list@.take(j as int),
                            decreases old_list@.len() - j,
                        {
                            list.push(old_list[j]);
                            j += 1;
                        }
                        assert(list@ =~= old_list@);
                    },
                    None => {},
                }
                let ghost shorter = list@;
                list.push(i);
                map.insert(source.clone(), list);
                proof {
                    assert forall|p: Seq<char>|
                        #![trigger map@.contains_key(p)]
                        lookup_entry_ok(map@, migs, (i + 1) as nat, p) by {
                        assert(before.contains_key(p) == before.contains_key(p));
                        assert(lookup_entry_ok(before, migs, i as nat, p));
                        if p == source@ {
                            assert(places(shorter) =~= candidates(migs, p, i as nat));
                            assert(places(list@) =~= places(shorter).push(i as int));
                        }
                    }
                }
            } else {
                proof {
                    assert forall|p: Seq<char>|
                        #![trigger map@.contains_key(p)]
                        lookup_entry_ok(map@, migs, (i + 1) as nat, p) by {
                        assert(lookup_entry_ok(before, migs, i as nat, p));
                    }
                }
            }
            i += 1;
        }
        let lookup = MigrationLookup { by_source: map };
        proof {
            assert forall|p: Seq<char>| #[trigger] lookup.filed_at(p) == candidates(
                migs,
                p,
                migs.len(),
            ) by {
                assert(map@.contains_key(p) || !map@.contains_key(p));
            }
        }
        lookup
    }

    /// The migrations whose link lies at the path with the given normal form.
    pub fn find(&self, normalized_path: &str) -> (r: Vec<usize>)
        ensures
            places(r@) == self.filed_at(normalized_path@),
    {
        let mut out: Vec<usize> = Vec::new();
        match self.by_source.get(normalized_path) {
            Some(list) => {
                let mut j: usize = 0;
                while j < list.len()
                    invariant
                        j <= list@.len(),
                        out@ =~= list@.take(j as int),
                    decreases list@.len() - j,
                {
                    out.push(list[j]);
                    j += 1;
                }
                assert(out@ =~= list@);
            },
            None => {
                assert(places(out@) =~= Seq::<int>::empty());
            },
        }
        out
    }
}

spec fn lookup_entry_ok(
    map: Map<Seq<char>, Vec<usize>>,
    migs: Seq<MigrationView>,
    n: nat,
    p: Seq<char>,
) -> bool {
    if map.contains_key(p) {
        places(map[p]@) == candidates(migs, p, n)
    } else {
        candidates(migs, p, n) == Seq::<int>::empty()
    }
}

spec fn lookup_ok(map: Map<Seq<char>, Vec<usize>>, migs: Seq<MigrationView>, n: nat) -> bool {
    forall|p: Seq<char>| #![trigger map.contains_key(p)] lookup_entry_ok(map, migs, n, p)
}

/// Candidates are places of migrations.
pub proof fn lemma_candidates_bound(migs: Seq<MigrationView>, p: Seq<char>, n: nat)
    ensures
        forall|i: int|
            0 <= i < candidates(migs, p, n).len() ==> 0 <= (#[trigger] candidates(migs, p, n)[i])
                < n && is_candidate(migs[candidates(migs, p, n)[i]], p),
    decreases n,
{
    if n > 0 {
        lemma_candidates_bound(migs, p, (n - 1) as nat);
        let before = candidates(migs, p, (n - 1) as nat);
        let now = candidates(migs, p, n);
        assert forall|i: int| 0 <= i < now.len() implies 0 <= (#[trigger] now[i]) < n
            && is_candidate(migs[now[i]], p) by {
            if i < before.len() {
                assert(now[i] == before[i]);
            }
        }
    }
}

// ---------------------------------------------------------------------------
// Laws
// ---------------------------------------------------------------------------

/// Where several migrations have the same source, the one that needs most
/// attention decides, and of several of these the last.
pub proof fn law_worst_status_wins(
    migs: Seq<MigrationView>,
    cands: Seq<int>,
    valid: Seq<bool>,
    n: nat,
    i: int,
)
    requires
        0 <= i < n,
    ensures
        winner(migs, cands, valid, n) matches Some(w) && 0 <= w < n && priority(
            candidate_status(migs, cands, valid, i),
        ) <= priority(candidate_status(migs, cands, valid, w)) && (priority(
            candidate_status(migs, cands, valid, i),
        ) == priority(candidate_status(migs, cands, valid, w)) ==> i <= w),
    decreases n,
{
    if i < n - 1 {
        law_worst_status_wins(migs, cands, valid, (n - 1) as nat, i);
    } else if n > 1 {
        law_worst_status_wins(migs, cands, valid, (n - 1) as nat, 0);
    }
}

} // verus!
