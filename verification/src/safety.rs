//! The checks before a migration.

use crate::error::{prefixed_text, AppError};
use crate::models::{
    migrations_view, strings_view, Config, ConfigView, Migration, MigrationStatus, MigrationView,
    PrecheckReport, Preset, PresetView,
};
use crate::paths::{
    is_strictly_under, matches_preset, normalize, normalized, preset_covers, same_or_under,
    strictly_under, EnvVars, EnvVarsView,
};
use crate::text::{
    decimal, eq_ignore_ascii_case, has_prefix, lowercase, push_decimal, replace_char,
    replaced_char, starts_with, str_eq, text_eq_ignore_case, to_lowercase, trim_end, trimmed_end,
};
use vstd::prelude::*;
use vstd::string::*;

verus! {

// ---------------------------------------------------------------------------
// Conflicts with other migrations
// ---------------------------------------------------------------------------

/// The migration still occupies its source.
pub open spec fn occupies_source(status: MigrationStatus) -> bool {
    status != MigrationStatus::TargetPendingDelete
}

/// Whether the migration still occupies its source.
pub fn migration_blocks_new_source(status: &MigrationStatus) -> (r: bool)
    ensures
        r == occupies_source(*status),
{
    *status != MigrationStatus::TargetPendingDelete
}

/// Whether `path` lies strictly inside `parent`.
pub fn is_descendant(path: &str, parent: &str) -> (r: bool)
    ensures
        r == strictly_under(normalized(path@), normalized(parent@)),
{
    is_strictly_under(normalize(path).as_str(), normalize(parent).as_str())
}

/// What the migration has against migrating `src`, if anything.
pub open spec fn conflict_with(m: MigrationView, src: Seq<char>) -> Option<Seq<char>> {
    if !occupies_source(m.status) {
        None
    } else if normalized(m.source) == normalized(src) {
        Some("源路径已有迁移记录，不能重复迁移"@)
    } else if strictly_under(normalized(m.source), normalized(src)) {
        Some("源目录包含已迁移的子目录："@ + m.source + "，请先在软链接管理中处理"@)
    } else if strictly_under(normalized(src), normalized(m.source)) {
        Some("源路径位于已迁移目录内部："@ + m.source + "，不能单独迁移"@)
    } else {
        None
    }
}

/// What the first of the first `n` migrations that has anything against
/// migrating `src` has against it.
pub open spec fn first_conflict(migs: Seq<MigrationView>, src: Seq<char>, n: nat) -> Option<
    Seq<char>,
>
    decreases n,
{
    if n == 0 {
        None
    } else if first_conflict(migs, src, (n - 1) as nat) is Some {
        first_conflict(migs, src, (n - 1) as nat)
    } else {
        conflict_with(migs[n - 1], src)
    }
}

/// The first conflict between the path and the recorded migrations.
pub fn migration_conflict(src: &str, existing: &[Migration]) -> (r: Option<String>)
    ensures
        match r {
            Some(m) => first_conflict(migrations_view(existing@), src@, existing@.len()) == Some(
                m@,
            ),
            None => first_conflict(migrations_view(existing@), src@, existing@.len()) is None,
        },
{
    let ghost migs = migrations_view(existing@);
    let norm_src: String = normalize(src);
    let mut i: usize = 0;
    while i < existing.len()
        invariant
            i <= existing@.len(),
            migs == migrations_view(existing@),
            norm_src@ == normalized(src@),
            first_conflict(migs, src@, i as nat) is None,
        decreases existing@.len() - i,
    {
        let m: &Migration = &existing[i];
        assert(migs[i as int] == m@);
        if migration_blocks_new_source(&m.status) {
            let norm_other: String = normalize(m.source.as_str());
            let text: Option<String> = if str_eq(norm_other.as_str(), norm_src.as_str()) {
                Some(String::from_str("源路径已有迁移记录，不能重复迁移"))
            } else if is_strictly_under(norm_other.as_str(), norm_src.as_str()) {
                let mut t = prefixed_text("源目录包含已迁移的子目录：", m.source.as_str());
                t.append("，请先在软链接管理中处理");
                Some(t)
            } else if is_strictly_under(norm_src.as_str(), norm_other.as_str()) {
                let mut t = prefixed_text("源路径位于已迁移目录内部：", m.source.as_str());
                t.append("，不能单独迁移");
                Some(t)
            } else {
                None
            };
            match text {
                Some(t) => {
                    proof {
                        assert(conflict_with(migs[i as int], src@) == Some(t@));
                        assert(first_conflict(migs, src@, (i + 1) as nat) == Some(t@));
                        lemma_first_conflict_stays(migs, src@, (i + 1) as nat, migs.len());
                    }
                    return Some(t);
                },
                None => {},
            }
        }
        i += 1;
    }
    None
}

proof fn lemma_first_conflict_stays(migs: Seq<MigrationView>, src: Seq<char>, a: nat, b: nat)
    requires
        a <= b,
        first_conflict(migs, src, a) is Some,
    ensures
        first_conflict(migs, src, b) == first_conflict(migs, src, a),
    decreases b,
{
    if a < b {
        lemma_first_conflict_stays(migs, src, a, (b - 1) as nat);
    }
}

/// A path may be migrated, as far as other migrations are concerned, exactly
/// where it neither is nor contains nor lies in the source of a migration that
/// still occupies it.
pub proof fn law_conflict_iff_paths_overlap(migs: Seq<MigrationView>, src: Seq<char>)
    ensures
        first_conflict(migs, src, migs.len()) is Some <==> exists|i: int|
            0 <= i < migs.len() && occupies_source((#[trigger] migs[i]).status) && (same_or_under(
                normalized(migs[i].source),
                normalized(src),
            ) || same_or_under(normalized(src), normalized(migs[i].source))),
{
    lemma_conflict_iff(migs, src, migs.len());
}

proof fn lemma_conflict_iff(migs: Seq<MigrationView>, src: Seq<char>, n: nat)
    requires
        n <= migs.len(),
    ensures
        first_conflict(migs, src, n) is Some <==> exists|i: int|
            0 <= i < n && occupies_source((#[trigger] migs[i]).status) && (same_or_under(
                normalized(migs[i].source),
                normalized(src),
            ) || same_or_under(normalized(src), normalized(migs[i].source))),
    decreases n,
{
    if n > 0 {
        lemma_conflict_iff(migs, src, (n - 1) as nat);
        let m = migs[n - 1];
        assert(conflict_with(m, src) is Some <==> occupies_source(m.status) && (same_or_under(
            normalized(m.source),
            normalized(src),
        ) || same_or_under(normalized(src), normalized(m.source))));
        if first_conflict(migs, src, n) is Some {
            if first_conflict(migs, src, (n - 1) as nat) is Some {
                let i = choose|i: int|
                    0 <= i < n - 1 && occupies_source((#[trigger] migs[i]).status) && (
                    same_or_under(normalized(migs[i].source), normalized(src)) || same_or_under(
                        normalized(src),
                        normalized(migs[i].source),
                    ));
                assert(occupies_source(migs[i].status));
            } else {
                assert(occupies_source(migs[n - 1].status));
            }
        }
    }
}

// ---------------------------------------------------------------------------
// Model of the checks
// ---------------------------------------------------------------------------

/// Answers of the system about a migration. What was not asked is `None`.
pub struct ProbeFacts {
    /// Serial number of the target volume, and whether it is NTFS.
    pub volume: Result<(String, bool), AppError>,
    /// Free bytes on the target volume.
    pub free: Result<u64, AppError>,
    /// Names of the processes that hold the source open.
    pub locked: Result<Option<Vec<String>>, AppError>,
    /// Names of the running processes.
    pub running: Option<Result<Vec<String>, AppError>>,
}

/// Directories that belong to the system.
pub open spec fn system_dirs() -> Seq<Seq<char>> {
    seq![
        "C:/Windows"@,
        "C:/Program Files/WindowsApps"@,
        "C:/Program Files (x86)"@,
        "C:/ProgramData/Microsoft"@,
        "C:/Windows/System32"@,
        "C:/Recovery"@,
    ]
}

/// The normal form of the path starts with that of a directory of the system.
pub open spec fn is_system_path(src: Seq<char>) -> bool {
    exists|i: int|
        0 <= i < system_dirs().len() && starts_with(
            normalized(src),
            normalized(#[trigger] system_dirs()[i]),
        )
}

/// Room to spare: a tenth of the size, and a hundred mebibytes.
pub open spec fn margin(src_size: u64) -> int {
    src_size / 10 + 104857600
}

/// The room that is needed.
pub open spec fn needed(src_size: u64) -> u64 {
    if src_size + margin(src_size) > u64::MAX {
        u64::MAX
    } else {
        (src_size + margin(src_size)) as u64
    }
}

/// A list of the text, where the condition holds.
pub open spec fn when(condition: bool, text: Seq<char>) -> Seq<Seq<char>> {
    if condition {
        seq![text]
    } else {
        Seq::empty()
    }
}

/// The texts with a comma and a blank between them.
pub open spec fn comma_list(texts: Seq<Seq<char>>, n: nat) -> Seq<char>
    decreases n,
{
    if n == 0 {
        Seq::empty()
    } else if n == 1 {
        texts[0]
    } else {
        comma_list(texts, (n - 1) as nat) + ", "@ + texts[n - 1]
    }
}

/// The repository without slashes at its end.
pub open spec fn repository_of(cfg: ConfigView) -> Seq<char> {
    trim_end(cfg.repository, '/')
}

/// The source with backslashes only.
pub open spec fn source_text(src: Seq<char>) -> Seq<char> {
    replace_char(src, '/', '\\')
}

/// The repository is a network path.
pub open spec fn is_network(repo: Seq<char>) -> bool {
    starts_with(replace_char(repo, '/', '\\'), "\\\\"@)
}

/// The repository lies in the source, or the source lies where the repository is.
pub open spec fn overlaps_repository(src: Seq<char>, repo: Seq<char>) -> bool {
    same_or_under(normalized(repo), normalized(src)) || starts_with(
        normalized(src),
        normalized(repo),
    )
}

/// Whether the target volume is NTFS, as far as it is known.
pub open spec fn is_ntfs(f: ProbeFacts) -> bool {
    match f.volume {
        Ok(v) => v.1,
        Err(_) => false,
    }
}

/// The free bytes on the target volume, as far as they are known.
pub open spec fn free_bytes(f: ProbeFacts) -> u64 {
    match f.free {
        Ok(n) => n,
        Err(_) => 0,
    }
}

/// The text of a failed question.
pub open spec fn failure_text<T>(r: Result<T, AppError>, prefix: Seq<char>) -> Seq<Seq<char>> {
    match r {
        Ok(_) => Seq::empty(),
        Err(e) => seq![prefix + e.text()],
    }
}

/// What stands in the way of the migration.
pub open spec fn blockers_of(
    src: Seq<char>,
    cfg: ConfigView,
    migs: Seq<MigrationView>,
    src_size: u64,
    f: ProbeFacts,
) -> Seq<Seq<char>> {
    let repo = repository_of(cfg);
    let text = source_text(src);
    (match first_conflict(migs, src, migs.len()) {
        Some(c) => seq![c],
        None => Seq::empty(),
    }) + when(is_system_path(text), "源路径在系统关键目录黑名单内"@) + when(
        starts_with(lowercase(repo), "c:"@),
        "仓库不能位于 C 盘（系统盘）"@,
    ) + when(is_network(repo), "仓库不能是网络路径"@) + when(
        overlaps_repository(text, repo),
        "仓库不能位于源目录内部"@,
    ) + failure_text(f.volume, "无法读取目标卷信息: "@) + when(
        !is_ntfs(f),
        "目标卷不是 NTFS（junction 需 NTFS）"@,
    ) + failure_text(f.free, "无法读取目标盘剩余空间: "@) + when(
        free_bytes(f) < needed(src_size),
        "目标盘空间不足：需 "@ + decimal(needed(src_size) as nat) + " 字节（含安全余量），实有 "@
            + decimal(free_bytes(f) as nat),
    )
}

/// The first of the first `n` presets that covers the source.
pub open spec fn covering(
    presets: Seq<PresetView>,
    env: EnvVarsView,
    src: Seq<char>,
    n: nat,
) -> Option<int>
    decreases n,
{
    if n == 0 {
        None
    } else if covering(presets, env, src, (n - 1) as nat) is Some {
        covering(presets, env, src, (n - 1) as nat)
    } else if preset_covers(presets[n - 1], src, env) {
        Some(n - 1)
    } else {
        None
    }
}

/// One of the processes has the name, letter case aside.
pub open spec fn is_running(name: Seq<char>, running: Seq<Seq<char>>) -> bool {
    exists|i: int|
        0 <= i < running.len() && text_eq_ignore_case(
            lowercase(#[trigger] running[i]),
            lowercase(name),
        )
}

/// Those of the first `n` names that are running.
pub open spec fn running_among(
    names: Seq<Seq<char>>,
    running: Seq<Seq<char>>,
    n: nat,
) -> Seq<Seq<char>>
    decreases n,
{
    if n == 0 {
        Seq::empty()
    } else {
        let before = running_among(names, running, (n - 1) as nat);
        if is_running(names[n - 1], running) {
            before.push(names[n - 1])
        } else {
            before
        }
    }
}

/// The preset whose processes have to be looked for.
pub open spec fn watched_preset(
    src: Seq<char>,
    cfg: ConfigView,
    env: EnvVarsView,
) -> Option<PresetView> {
    match covering(cfg.presets, env, source_text(src), cfg.presets.len()) {
        Some(i) => if cfg.presets[i].match_processes.len() > 0 {
            Some(cfg.presets[i])
        } else {
            None
        },
        None => None,
    }
}

/// The warning about processes that hold the source open.
pub open spec fn locked_warning(f: ProbeFacts) -> Seq<Seq<char>> {
    match f.locked {
        Ok(Some(procs)) => when(
            procs@.len() > 0,
            "源被进程占用（Restart Manager）："@ + comma_list(strings_view(procs@), procs@.len()),
        ),
        _ => Seq::empty(),
    }
}

/// The warning about running processes of the preset.
pub open spec fn preset_warning(preset: PresetView, f: ProbeFacts) -> Seq<Seq<char>> {
    match f.running {
        Some(Ok(running)) => {
            let names = preset.match_processes;
            let hits = running_among(names, strings_view(running@), names.len());
            when(
                hits.len() > 0,
                "源目录被进程占用，请先关闭 "@ + preset.name + "："@ + comma_list(hits, hits.len()),
            )
        },
        Some(Err(e)) => seq!["无法枚举运行中进程（跳过占用检测）: "@ + e.text()],
        None => Seq::empty(),
    }
}

/// What the user should know before the migration.
pub open spec fn warnings_of(
    src: Seq<char>,
    cfg: ConfigView,
    env: EnvVarsView,
    f: ProbeFacts,
) -> Seq<Seq<char>> {
    locked_warning(f) + match watched_preset(src, cfg, env) {
        Some(p) => preset_warning(p, f),
        None => Seq::empty(),
    }
}

/// The report of the checks.
pub open spec fn is_report(
    r: PrecheckReport,
    src: Seq<char>,
    cfg: ConfigView,
    migs: Seq<MigrationView>,
    src_size: u64,
    env: EnvVarsView,
    f: ProbeFacts,
) -> bool {
    &&& strings_view(r.blockers@) == blockers_of(src, cfg, migs, src_size, f)
    &&& strings_view(r.warnings@) == warnings_of(src, cfg, env, f)
    &&& r.ok == (r.blockers@.len() == 0)
    &&& r.source_size_bytes == src_size
    &&& r.target_free_bytes == free_bytes(f)
}

// ---------------------------------------------------------------------------
// Executable
// ---------------------------------------------------------------------------

/// Room to spare.
pub fn safety_margin(src_size: u64) -> (r: u64)
    ensures
        r == margin(src_size),
{
    src_size / 10 + 104857600
}

/// Adds the text to the list, where the condition holds.
fn push_when(list: &mut Vec<String>, condition: bool, text: String)
    ensures
        strings_view(final(list)@) == strings_view(old(list)@) + when(condition, text@),
{
    let ghost before = strings_view(list@);
    if condition {
        list.push(text);
    }
    assert(strings_view(list@) =~= before + when(condition, text@));
}

/// The texts with a comma and a blank between them.
fn join_texts(texts: &Vec<String>) -> (r: String)
    ensures
        r@ == comma_list(strings_view(texts@), texts@.len()),
{
    let ghost all = strings_view(texts@);
    let mut out = String::new();
    let mut i: usize = 0;
    while i < texts.len()
        invariant
            i <= texts@.len(),
            all == strings_view(texts@),
            out@ == comma_list(all, i as nat),
        decreases texts@.len() - i,
    {
        assert(all[i as int] == texts@[i as int]@);
        if i > 0 {
            out.append(", ");
        }
        out.append(texts[i].as_str());
        proof {
            if i == 0 {
                assert(out@ =~= all[0]);
            }
        }
        i += 1;
    }
    out
}

/// Whether the normal form of the path starts with that of the directory.
fn starts_with_dir(norm: &str, dir: &str) -> (r: bool)
    ensures
        r == starts_with(norm@, normalized(dir@)),
{
    has_prefix(norm, normalize(dir).as_str())
}

/// Whether the path belongs to the system.
fn is_system(norm: &str, Ghost(src): Ghost<Seq<char>>) -> (r: bool)
    requires
        norm@ == normalized(src),
    ensures
        r == is_system_path(src),
{
    let a: bool = starts_with_dir(norm, "C:/Windows");
    let b: bool = starts_with_dir(norm, "C:/Program Files/WindowsApps");
    let c: bool = starts_with_dir(norm, "C:/Program Files (x86)");
    let d: bool = starts_with_dir(norm, "C:/ProgramData/Microsoft");
    let e: bool = starts_with_dir(norm, "C:/Windows/System32");
    let f: bool = starts_with_dir(norm, "C:/Recovery");
    proof {
        let dirs = system_dirs();
        assert(dirs[0] == "C:/Windows"@);
        assert(dirs[1] == "C:/Program Files/WindowsApps"@);
        assert(dirs[2] == "C:/Program Files (x86)"@);
        assert(dirs[3] == "C:/ProgramData/Microsoft"@);
        assert(dirs[4] == "C:/Windows/System32"@);
        assert(dirs[5] == "C:/Recovery"@);
    }
    a || b || c || d || e || f
}

/// Whether a process with the name is running.
fn runs(name: &str, running: &Vec<String>) -> (r: bool)
    ensures
        r == is_running(name@, strings_view(running@)),
{
    let ghost all = strings_view(running@);
    let wanted = to_lowercase(name);
    let mut i: usize = 0;
    while i < running.len()
        invariant
            i <= running@.len(),
            all == strings_view(running@),
            wanted@ == lowercase(name@),
            forall|j: int|
                0 <= j < i ==> !text_eq_ignore_case(
                    lowercase(#[trigger] all[j]),
                    lowercase(name@),
                ),
        decreases running@.len() - i,
    {
        assert(all[i as int] == running@[i as int]@);
        if eq_ignore_ascii_case(to_lowercase(running[i].as_str()).as_str(), wanted.as_str()) {
            return true;
        }
        i += 1;
    }
    false
}

/// The first preset that covers the source.
fn find_preset(presets: &Vec<Preset>, text: &str, env: &EnvVars) -> (r: Option<usize>)
    ensures
        match r {
            Some(i) => i < presets@.len() && covering(
                crate::models::presets_view(presets@),
                env@,
                text@,
                presets@.len(),
            ) == Some(i as int),
            None => covering(
                crate::models::presets_view(presets@),
                env@,
                text@,
                presets@.len(),
            ) is None,
        },
{
    let ghost all = crate::models::presets_view(presets@);
    let mut i: usize = 0;
    while i < presets.len()
        invariant
            i <= presets@.len(),
            all == crate::models::presets_view(presets@),
            covering(all, env@, text@, i as nat) is None,
        decreases presets@.len() - i,
    {
        assert(all[i as int] == presets@[i as int]@);
        if matches_preset(text, &presets[i], env) {
            proof {
                assert(covering(all, env@, text@, (i + 1) as nat) == Some(i as int));
                lemma_covering_stays(all, env@, text@, (i + 1) as nat, all.len());
            }
            return Some(i);
        }
        i += 1;
    }
    None
}

proof fn lemma_covering_stays(
    presets: Seq<PresetView>,
    env: EnvVarsView,
    src: Seq<char>,
    a: nat,
    b: nat,
)
    requires
        a <= b,
        covering(presets, env, src, a) is Some,
    ensures
        covering(presets, env, src, b) == covering(presets, env, src, a),
    decreases b,
{
    if a < b {
        lemma_covering_stays(presets, env, src, a, (b - 1) as nat);
    }
}

/// The warning about running processes of the preset, if any.
fn warn_running(warnings: &mut Vec<String>, preset: &Preset, facts: &ProbeFacts)
    ensures
        strings_view(final(warnings)@) == strings_view(old(warnings)@) + preset_warning(
            preset@,
            *facts,
        ),
{
    let ghost before = strings_view(warnings@);
    match &facts.running {
        Some(Ok(running)) => {
            let ghost names = preset@.match_processes;
            let ghost procs = strings_view(running@);
            let mut hits: Vec<String> = Vec::new();
            let mut i: usize = 0;
            assert(strings_view(hits@) =~= Seq::<Seq<char>>::empty());
            while i < preset.match_processes.len()
                invariant
                    i <= preset.match_processes@.len(),
                    names == strings_view(preset.match_processes@),
                    procs == strings_view(running@),
                    strings_view(hits@) == running_among(names, procs, i as nat),
                decreases preset.match_processes@.len() - i,
            {
                let ghost so_far = strings_view(hits@);
                assert(names[i as int] == preset.match_processes@[i as int]@);
                if runs(preset.match_processes[i].as_str(), running) {
                    hits.push(preset.match_processes[i].clone());
                    assert(strings_view(hits@) =~= so_far.push(names[i as int]));
                }
                i += 1;
            }
            let mut text = prefixed_text("源目录被进程占用，请先关闭 ", preset.name.as_str());
            text.append("：");
            text.append(join_texts(&hits).as_str());
            let any: bool = hits.len() > 0;
            push_when(warnings, any, text);
        },
        Some(Err(e)) => {
            warnings.push(prefixed_text("无法枚举运行中进程（跳过占用检测）: ", e.describe().as_str()));
            assert(strings_view(warnings@) =~= before + preset_warning(preset@, *facts));
        },
        None => {
            assert(strings_view(warnings@) =~= before + preset_warning(preset@, *facts));
        },
    }
}

/// Whether the running processes have to be asked for.
pub fn needs_running(src: &str, config: &Config, env: &EnvVars) -> (r: bool)
    ensures
        r == watched_preset(src@, config@, env@) is Some,
{
    let text: String = replaced_char(src, '/', '\\');
    match find_preset(&config.presets, text.as_str(), env) {
        Some(i) => {
            assert(config@.presets[i as int] == config.presets@[i as int]@);
            config.presets[i].match_processes.len() > 0
        },
        None => false,
    }
}

/// Adds the text of a failed question to the list.
fn push_failure<T>(list: &mut Vec<String>, r: &Result<T, AppError>, prefix: &str)
    ensures
        strings_view(final(list)@) == strings_view(old(list)@) + failure_text(*r, prefix@),
{
    let ghost before = strings_view(list@);
    match r {
        Ok(_) => {},
        Err(e) => {
            list.push(prefixed_text(prefix, e.describe().as_str()));
        },
    }
    assert(strings_view(list@) =~= before + failure_text(*r, prefix@));
}

/// What stands in the way of the migration.
fn list_blockers(
    src: &str,
    config: &Config,
    existing: &[Migration],
    src_size: u64,
    facts: &ProbeFacts,
) -> (r: Vec<String>)
    ensures
        strings_view(r@) == blockers_of(
            src@,
            config@,
            migrations_view(existing@),
            src_size,
            *facts,
        ),
{
    let repo: String = trimmed_end(config.repository.as_str(), '/');
    let text: String = replaced_char(src, '/', '\\');
    let norm: String = normalize(text.as_str());
    let norm_repo: String = normalize(repo.as_str());
    let mut blockers: Vec<String> = Vec::new();
    match migration_conflict(src, existing) {
        Some(c) => {
            blockers.push(c);
            assert(strings_view(blockers@) =~= seq![c@]);
        },
        None => {
            assert(strings_view(blockers@) =~= Seq::<Seq<char>>::empty());
        },
    }
    push_when(
        &mut blockers,
        is_system(norm.as_str(), Ghost(text@)),
        String::from_str("源路径在系统关键目录黑名单内"),
    );
    let lower: String = to_lowercase(repo.as_str());
    push_when(
        &mut blockers,
        has_prefix(lower.as_str(), "c:"),
        String::from_str("仓库不能位于 C 盘（系统盘）"),
    );
    let slashed: String = replaced_char(repo.as_str(), '/', '\\');
    push_when(
        &mut blockers,
        has_prefix(slashed.as_str(), "\\\\"),
        String::from_str("仓库不能是网络路径"),
    );
    let overlaps: bool = str_eq(norm_repo.as_str(), norm.as_str()) || is_strictly_under(
        norm_repo.as_str(),
        norm.as_str(),
    ) || has_prefix(norm.as_str(), norm_repo.as_str());
    push_when(&mut blockers, overlaps, String::from_str("仓库不能位于源目录内部"));
    push_failure(&mut blockers, &facts.volume, "无法读取目标卷信息: ");
    let ntfs: bool = match &facts.volume {
        Ok(v) => v.1,
        Err(_) => false,
    };
    push_when(
        &mut blockers,
        !ntfs,
        String::from_str("目标卷不是 NTFS（junction 需 NTFS）"),
    );
    push_failure(&mut blockers, &facts.free, "无法读取目标盘剩余空间: ");
    let free: u64 = match &facts.free {
        Ok(n) => *n,
        Err(_) => 0,
    };
    let need: u64 = src_size.saturating_add(safety_margin(src_size));
    let mut space = String::from_str("目标盘空间不足：需 ");
    push_decimal(&mut space, need);
    space.append(" 字节（含安全余量），实有 ");
    push_decimal(&mut space, free);
    push_when(&mut blockers, free < need, space);
    blockers
}

/// What the user should know before the migration.
fn list_warnings(src: &str, config: &Config, env: &EnvVars, facts: &ProbeFacts) -> (r: Vec<String>)
    ensures
        strings_view(r@) == warnings_of(src@, config@, env@, *facts),
{
    let text: String = replaced_char(src, '/', '\\');
    let ghost none = Seq::<Seq<char>>::empty();
    let mut warnings: Vec<String> = Vec::new();
    assert(strings_view(warnings@) =~= none);
    match &facts.locked {
        Ok(Some(procs)) => {
            let t = prefixed_text(
                "源被进程占用（Restart Manager）：",
                join_texts(procs).as_str(),
            );
            let any: bool = procs.len() > 0;
            push_when(&mut warnings, any, t);
            assert(strings_view(warnings@) =~= locked_warning(*facts));
        },
        _ => {},
    }
    let ghost w1 = strings_view(warnings@);
    assert(w1 == locked_warning(*facts));
    assert(w1 + none =~= w1);
    match find_preset(&config.presets, text.as_str(), env) {
        Some(i) => {
            assert(config@.presets[i as int] == config.presets@[i as int]@);
            if config.presets[i].match_processes.len() > 0 {
                warn_running(&mut warnings, &config.presets[i], facts);
            }
        },
        None => {},
    }
    warnings
}

/// Checks a migration, given the answers of the system.
pub fn precheck_with_facts(
    src: &str,
    config: &Config,
    existing: &[Migration],
    src_size: u64,
    env: &EnvVars,
    facts: &ProbeFacts,
) -> (r: PrecheckReport)
    ensures
        is_report(r, src@, config@, migrations_view(existing@), src_size, env@, *facts),
{
    let blockers = list_blockers(src, config, existing, src_size, facts);
    let warnings = list_warnings(src, config, env, facts);
    let free: u64 = match &facts.free {
        Ok(n) => *n,
        Err(_) => 0,
    };
    let ok: bool = blockers.len() == 0;
    PrecheckReport {
        ok,
        warnings,
        blockers,
        source_size_bytes: src_size,
        target_free_bytes: free,
    }
}

/// Questions to the system.
pub trait SystemProbe {
    /// The serial number of the volume of a path, and whether it is NTFS.
    fn volume_info(&self, p: &str) -> Result<(String, bool), AppError>;

    /// The free bytes on the volume of a path.
    fn disk_free(&self, p: &str) -> Result<u64, AppError>;

    /// The processes that hold a file open; nothing for a directory.
    fn locked_processes(&self, p: &str) -> Result<Option<Vec<String>>, AppError>;

    /// The names of the running processes, in lower case and without `.exe`.
    fn running_processes(&self) -> Result<Vec<String>, AppError>;
}

/// The facts are answers of the system about the repository and the source.
pub open spec fn gathered<P: SystemProbe + ?Sized>(
    probe: &P,
    src: &str,
    repo: Seq<char>,
    facts: ProbeFacts,
) -> bool {
    &&& exists|p: &str| p@ == repo && #[trigger] call_ensures(
        P::volume_info,
        (probe, p),
        facts.volume,
    )
    &&& exists|p: &str| p@ == repo && #[trigger] call_ensures(
        P::disk_free,
        (probe, p),
        facts.free,
    )
    &&& call_ensures(P::locked_processes, (probe, src), facts.locked)
    &&& facts.running is Some ==> call_ensures(
        P::running_processes,
        (probe,),
        facts.running->0,
    )
}

/// Checks a migration. The system is asked about the repository and the
/// source, and about the running processes where a preset names some.
pub fn precheck<P: SystemProbe + ?Sized>(
    src: &str,
    config: &Config,
    existing: &[Migration],
    src_size: u64,
    env: &EnvVars,
    probe: &P,
) -> (r: PrecheckReport)
    ensures
        exists|facts: ProbeFacts|
            {
                &&& #[trigger] is_report(
                    r,
                    src@,
                    config@,
                    migrations_view(existing@),
                    src_size,
                    env@,
                    facts,
                )
                &&& gathered(probe, src, repository_of(config@), facts)
                &&& facts.running is Some <==> watched_preset(src@, config@, env@) is Some
            },
{
    let repo: String = trimmed_end(config.repository.as_str(), '/');
    let volume = probe.volume_info(repo.as_str());
    let free = probe.disk_free(repo.as_str());
    let locked = probe.locked_processes(src);
    let running = if needs_running(src, config, env) {
        Some(probe.running_processes())
    } else {
        None
    };
    let facts = ProbeFacts { volume, free, locked, running };
    precheck_with_facts(src, config, existing, src_size, env, &facts)
}

/// Nothing stands in the way of a migration exactly where the path does not
/// overlap with another migration or the system's directories, the repository
/// is a local directory off the system drive and apart from the source, and
/// its volume is NTFS and has room for the source and the margin.
pub proof fn law_ok_iff_every_check_passes(
    r: PrecheckReport,
    src: Seq<char>,
    cfg: ConfigView,
    migs: Seq<MigrationView>,
    src_size: u64,
    env: EnvVarsView,
    f: ProbeFacts,
)
    requires
        is_report(r, src, cfg, migs, src_size, env, f),
    ensures
        r.ok <==> {
            &&& first_conflict(migs, src, migs.len()) is None
            &&& !is_system_path(source_text(src))
            &&& !starts_with(lowercase(repository_of(cfg)), "c:"@)
            &&& !is_network(repository_of(cfg))
            &&& !overlaps_repository(source_text(src), repository_of(cfg))
            &&& f.volume is Ok && f.volume->Ok_0.1
            &&& f.free is Ok
            &&& free_bytes(f) >= needed(src_size)
        },
{
    let repo = repository_of(cfg);
    let text = source_text(src);
    let p1 = match first_conflict(migs, src, migs.len()) {
        Some(c) => seq![c],
        None => Seq::empty(),
    };
    let p2 = when(is_system_path(text), "源路径在系统关键目录黑名单内"@);
    let p3 = when(starts_with(lowercase(repo), "c:"@), "仓库不能位于 C 盘（系统盘）"@);
    let p4 = when(is_network(repo), "仓库不能是网络路径"@);
    let p5 = when(overlaps_repository(text, repo), "仓库不能位于源目录内部"@);
    let p6 = failure_text(f.volume, "无法读取目标卷信息: "@);
    let p7 = when(!is_ntfs(f), "目标卷不是 NTFS（junction 需 NTFS）"@);
    let p8 = failure_text(f.free, "无法读取目标盘剩余空间: "@);
    let p9 = when(
        free_bytes(f) < needed(src_size),
        "目标盘空间不足：需 "@ + decimal(needed(src_size) as nat) + " 字节（含安全余量），实有 "@
            + decimal(free_bytes(f) as nat),
    );
    let b = blockers_of(src, cfg, migs, src_size, f);
    assert(b == p1 + p2 + p3 + p4 + p5 + p6 + p7 + p8 + p9);
    lemma_nine(p1, p2, p3, p4, p5, p6, p7, p8, p9);
    assert(strings_view(r.blockers@).len() == r.blockers@.len());
}

/// Nothing is put together exactly from nothing.
proof fn lemma_nine(
    p1: Seq<Seq<char>>,
    p2: Seq<Seq<char>>,
    p3: Seq<Seq<char>>,
    p4: Seq<Seq<char>>,
    p5: Seq<Seq<char>>,
    p6: Seq<Seq<char>>,
    p7: Seq<Seq<char>>,
    p8: Seq<Seq<char>>,
    p9: Seq<Seq<char>>,
)
    ensures
        (p1 + p2 + p3 + p4 + p5 + p6 + p7 + p8 + p9).len() == p1.len() + p2.len() + p3.len()
            + p4.len() + p5.len() + p6.len() + p7.len() + p8.len() + p9.len(),
{
}

} // verus!
