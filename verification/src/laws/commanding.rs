//! What the user's commands do: scans that end, and migrations that are planned.

use crate::app_state::AppState;
use crate::commands::{
    from_mft, is_current, is_planned, preset_with_id, scan_ends, subdir_for, target_for,
};
use crate::error::AppError;
use crate::laws::precheck::is_in_the_way;
use crate::migrator::MigratePlan;
use crate::models::{ConfigView, MigrationView, PresetView, ScanDriveResult, ScanSource};
use crate::safety::law_conflict_iff_paths_overlap;
use crate::scanner::{ScanDriveError, ScanOutcome};
use crate::text::{replace_char, trim_end};
use vstd::prelude::*;
use vstd::string::*;

verus! {

/// A scan that succeeded puts its tree in the place of the old one, and the tree is the
/// current one from then on; one that did not leaves the old tree. A scan that was
/// cancelled is reported so, and one that lacks the rights asks for them. Nothing else
/// changes, and the next scan may begin.
pub proof fn law_scan_replaces_the_tree_only_when_done(
    before: AppState,
    after: AppState,
    result: Result<ScanOutcome, ScanDriveError>,
    r: Result<ScanDriveResult, AppError>,
)
    requires
        scan_ends(before, after, result, r),
    ensures
        after.scan_task is None,
        after.store == before.store,
        after.journal == before.journal,
        after.history == before.history,
        after.task == before.task,
        result is Ok ==> after.current_scan == Some(result->Ok_0.store) && is_current(
            after,
            result->Ok_0.store@.scan_id,
        ) && (r matches Ok(d) && d is Complete && d->snapshot.scan_id@
            == result->Ok_0.store@.scan_id && d->snapshot.source == result->Ok_0.store@.source
            && d->snapshot.diagnostics == result->Ok_0.diagnostics),
        result is Err ==> after.current_scan == before.current_scan,
        (result matches Err(e) && e is Cancelled) ==> (r matches Err(e) && e is Cancelled),
        (result matches Err(e) && e is NeedsElevation) ==> (r matches Ok(d) && d is NeedsElevation),
        (result matches Err(e) && e is FastScanFailure) ==> (r matches Ok(d)
            && d is FastScanUnavailable),
{
}

/// Preset `k` is the first with the id.
pub open spec fn is_first_with_id(presets: Seq<PresetView>, id: Seq<char>, k: int) -> bool {
    &&& 0 <= k < presets.len()
    &&& presets[k].id == id
    &&& forall|j: int| 0 <= j < k ==> (#[trigger] presets[j]).id != id
}

proof fn lemma_preset(presets: Seq<PresetView>, id: Seq<char>, n: nat)
    requires
        n <= presets.len(),
    ensures
        match preset_with_id(presets, id, n) {
            Some(k) => k < n && is_first_with_id(presets, id, k),
            None => forall|j: int| 0 <= j < n ==> (#[trigger] presets[j]).id != id,
        },
    decreases n,
{
    if n > 0 {
        lemma_preset(presets, id, (n - 1) as nat);
    }
}

/// The directory in the repository for the data of a preset, or for data without one.
proof fn lemma_subdir(cfg: ConfigView, preset: Option<Seq<char>>, k: int)
    ensures
        preset is Some && is_first_with_id(cfg.presets, preset->0, k) ==> subdir_for(cfg, preset)
            == cfg.presets[k].target_subdir,
        (preset is None || forall|j: int|
            0 <= j < cfg.presets.len() ==> (#[trigger] cfg.presets[j]).id != preset->0)
            ==> subdir_for(cfg, preset) == "custom"@,
{
    match preset {
        Some(id) => {
            lemma_preset(cfg.presets, id, cfg.presets.len());
            match preset_with_id(cfg.presets, id, cfg.presets.len()) {
                Some(m) => {
                    assert(cfg.presets[m].id == id);
                    if is_first_with_id(cfg.presets, id, k) {
                        if m < k {
                            assert(cfg.presets[m].id != id);
                        } else if k < m {
                            assert(cfg.presets[k].id != id);
                        }
                    }
                },
                None => {},
            }
        },
        None => {},
    }
}

/// A migration is planned exactly where no other is in the way. Its data is to lie in
/// the repository, in the directory of the preset or in `custom`, under the id; the
/// copy is made beside it, and the source is renamed beside itself.
pub proof fn law_plan_says_where_everything_goes(
    migration_id: Seq<char>,
    src: Seq<char>,
    preset: Option<Seq<char>>,
    cfg: ConfigView,
    migs: Seq<MigrationView>,
    r: Result<MigratePlan, AppError>,
    k: int,
)
    requires
        is_planned(migration_id, src, preset, cfg, migs, r),
    ensures
        r is Ok <==> forall|i: int| 0 <= i < migs.len() ==> !is_in_the_way(#[trigger] migs[i], src),
        r is Err ==> r->Err_0 is Conflict,
        r is Ok ==> {
            let p = r->Ok_0;
            let home = trim_end(cfg.repository, '/') + "/"@;
            let tail = "/"@ + migration_id + "/data"@;
            &&& p.src@ == src
            &&& p.migration_id@ == migration_id
            &&& p.task_id@ == "task-"@ + migration_id
            &&& p.tmp@ == p.target@ + ".tmp"@
            &&& p.old_path@ == replace_char(src, '/', '\\') + ".dayu-old-"@ + ("task-"@
                + migration_id)
            &&& preset is Some && is_first_with_id(cfg.presets, preset->0, k) ==> p.target@ == home
                + cfg.presets[k].target_subdir + tail
            &&& (preset is None || forall|j: int|
                0 <= j < cfg.presets.len() ==> (#[trigger] cfg.presets[j]).id != preset->0)
                ==> p.target@ == home + "custom"@ + tail
        },
{
    law_conflict_iff_paths_overlap(migs, src);
    lemma_subdir(cfg, preset, k);
    assert((forall|i: int| 0 <= i < migs.len() ==> !is_in_the_way(#[trigger] migs[i], src))
        <==> crate::safety::first_conflict(migs, src, migs.len()) is None);
    let home = trim_end(cfg.repository, '/') + "/"@;
    let sub = subdir_for(cfg, preset);
    assert(target_for(cfg, preset, migration_id) =~= home + sub + ("/"@ + migration_id
        + "/data"@));
}

/// A tree is worth a new scan exactly where there is one that came from the table of
/// records: not without a tree, and not where it came from a walk.
pub proof fn law_fast_scan_is_repeated(state: AppState)
    ensures
        state.current_scan is None ==> !from_mft(state),
        state.current_scan matches Some(s) && s@.source == ScanSource::Mft ==> from_mft(state),
        state.current_scan matches Some(s) && s@.source != ScanSource::Mft ==> !from_mft(state),
{
}

} // verus!
