//! The checks before a migration: what is refused, and why.

use crate::models::{
    strings_view, ConfigView, MigrationStatus, MigrationView, PrecheckReport, PresetView,
};
use crate::paths::{normalized, preset_covers, same_or_under, EnvVarsView};
use crate::safety::{
    blockers_of, covering, failure_text, first_conflict, free_bytes, is_network, is_ntfs, is_report, is_running,
    is_system_path, law_conflict_iff_paths_overlap, law_ok_iff_every_check_passes, needed,
    overlaps_repository, preset_warning, repository_of, running_among, source_text, system_dirs,
    warnings_of, watched_preset, ProbeFacts,
};
use crate::text::{decimal, lowercase, replace_char, starts_with, text_eq_ignore_case, trim_end};
use vstd::prelude::*;
use vstd::string::*;

verus! {

/// Slashes and backslashes are alike in a path.
pub proof fn law_slashes_are_alike(p: Seq<char>)
    ensures
        normalized(replace_char(p, '/', '\\')) == normalized(p),
{
    assert(replace_char(replace_char(p, '/', '\\'), '/', '\\') =~= replace_char(p, '/', '\\'));
}

/// `dir` is one of the directories that belong to the system.
pub open spec fn belongs_to_system(dir: Seq<char>) -> bool {
    dir == "C:/Windows"@ || dir == "C:/Windows/System32"@ || dir == "C:/Program Files/WindowsApps"@
        || dir == "C:/Program Files (x86)"@ || dir == "C:/ProgramData/Microsoft"@ || dir
        == "C:/Recovery"@
}

proof fn lemma_listed_dirs(dir: Seq<char>)
    ensures
        belongs_to_system(dir) <==> exists|i: int|
            0 <= i < system_dirs().len() && #[trigger] system_dirs()[i] == dir,
{
    let dirs = system_dirs();
    assert(dirs[0] == "C:/Windows"@);
    assert(dirs[1] == "C:/Program Files/WindowsApps"@);
    assert(dirs[2] == "C:/Program Files (x86)"@);
    assert(dirs[3] == "C:/ProgramData/Microsoft"@);
    assert(dirs[4] == "C:/Windows/System32"@);
    assert(dirs[5] == "C:/Recovery"@);
}

/// No source may be migrated that is a directory of the system or lies at any
/// depth below one.
pub proof fn law_system_directories_stay(
    r: PrecheckReport,
    src: Seq<char>,
    cfg: ConfigView,
    migs: Seq<MigrationView>,
    src_size: u64,
    env: EnvVarsView,
    f: ProbeFacts,
    dir: Seq<char>,
)
    requires
        is_report(r, src, cfg, migs, src_size, env, f),
        belongs_to_system(dir),
        same_or_under(normalized(src), normalized(dir)),
    ensures
        !r.ok,
        strings_view(r.blockers@).contains("源路径在系统关键目录黑名单内"@),
{
    lemma_listed_dirs(dir);
    law_slashes_are_alike(src);
    let i = choose|i: int| 0 <= i < system_dirs().len() && #[trigger] system_dirs()[i] == dir;
    assert(starts_with(normalized(source_text(src)), normalized(system_dirs()[i]))) by {
        if normalized(src) == normalized(dir) {
            assert(normalized(src).take(normalized(dir).len() as int) =~= normalized(dir));
        }
    }
    assert(is_system_path(source_text(src)));
    law_refusals_are_told(r, src, cfg, migs, src_size, env, f);
    assert(!(r.blockers@.len() == 0)) by {
        assert(strings_view(r.blockers@).len() == r.blockers@.len());
    }
}

/// The text of the repository without the slashes at its end.
pub open spec fn repository_text(cfg: ConfigView) -> Seq<char> {
    trim_end(cfg.repository, '/')
}

/// The migration still holds its source, and that is the path, contains it, or
/// lies inside it.
pub open spec fn is_in_the_way(m: MigrationView, src: Seq<char>) -> bool {
    &&& m.status != MigrationStatus::TargetPendingDelete
    &&& same_or_under(normalized(m.source), normalized(src)) || same_or_under(
        normalized(src),
        normalized(m.source),
    )
}

/// The room that a migration needs: the size, a tenth of it, and a hundred
/// mebibytes.
pub open spec fn room_for(src_size: u64) -> int {
    src_size + src_size / 10 + 100 * 1024 * 1024
}

/// A migration may go ahead exactly where no migration is in the way, the source
/// starts with no directory of the system, the repository is a local directory off
/// drive C that neither lies in the source nor holds it, and its volume is known to
/// be NTFS and known to have the room.
pub proof fn law_migration_may_go_ahead(
    r: PrecheckReport,
    src: Seq<char>,
    cfg: ConfigView,
    migs: Seq<MigrationView>,
    src_size: u64,
    env: EnvVarsView,
    f: ProbeFacts,
)
    requires
        is_report(r, src, cfg, migs, src_size, env, f),
    ensures
        r.ok <==> {
            let repo = repository_text(cfg);
            &&& forall|i: int| 0 <= i < migs.len() ==> !is_in_the_way(#[trigger] migs[i], src)
            &&& forall|dir: Seq<char>| #[trigger]
                belongs_to_system(dir) ==> !starts_with(normalized(src), normalized(dir))
            &&& !(lowercase(repo).len() >= 2 && lowercase(repo)[0] == 'c' && lowercase(repo)[1]
                == ':')
            &&& !(repo.len() >= 2 && (repo[0] == '/' || repo[0] == '\\') && (repo[1] == '/'
                || repo[1] == '\\'))
            &&& !same_or_under(normalized(repo), normalized(src))
            &&& !starts_with(normalized(src), normalized(repo))
            &&& f.volume matches Ok(v) && v.1
            &&& f.free matches Ok(n) && (n >= room_for(src_size) || n == u64::MAX)
        },
        r.ok <==> r.blockers@.len() == 0,
        r.source_size_bytes == src_size,
        r.target_free_bytes == match f.free {
            Ok(n) => n,
            Err(_) => 0,
        },
{
    law_ok_iff_every_check_passes(r, src, cfg, migs, src_size, env, f);
    law_conflict_iff_paths_overlap(migs, src);
    law_slashes_are_alike(src);
    let repo = repository_text(cfg);
    assert((forall|i: int| 0 <= i < migs.len() ==> !is_in_the_way(#[trigger] migs[i], src))
        <==> first_conflict(migs, src, migs.len()) is None);
    assert((exists|dir: Seq<char>| #[trigger]
        belongs_to_system(dir) && starts_with(normalized(src), normalized(dir))) <==> is_system_path(
        source_text(src),
    )) by {
        assert forall|i: int| 0 <= i < system_dirs().len() implies belongs_to_system(
            #[trigger] system_dirs()[i],
        ) by {
            lemma_listed_dirs(system_dirs()[i]);
        }
        if exists|dir: Seq<char>| #[trigger]
            belongs_to_system(dir) && starts_with(normalized(src), normalized(dir)) {
            let dir = choose|dir: Seq<char>| #[trigger]
                belongs_to_system(dir) && starts_with(normalized(src), normalized(dir));
            lemma_listed_dirs(dir);
            let i = choose|i: int|
                0 <= i < system_dirs().len() && #[trigger] system_dirs()[i] == dir;
            assert(starts_with(normalized(source_text(src)), normalized(system_dirs()[i])));
        }
    }
    let low = lowercase(repo);
    reveal_strlit("c:");
    assert(starts_with(low, "c:"@) <==> (low.len() >= 2 && low[0] == 'c' && low[1] == ':')) by {
        if starts_with(low, "c:"@) {
            assert(low.take(2)[0] == low[0] && low.take(2)[1] == low[1]);
        }
        if low.len() >= 2 && low[0] == 'c' && low[1] == ':' {
            assert(low.take(2) =~= "c:"@);
        }
    }
    let slashed = replace_char(repo, '/', '\\');
    reveal_strlit("\\\\");
    assert(starts_with(slashed, "\\\\"@) <==> (slashed.len() >= 2 && slashed[0] == '\\'
        && slashed[1] == '\\')) by {
        if starts_with(slashed, "\\\\"@) {
            assert(slashed.take(2)[0] == slashed[0] && slashed.take(2)[1] == slashed[1]);
        }
        if slashed.len() >= 2 && slashed[0] == '\\' && slashed[1] == '\\' {
            assert(slashed.take(2) =~= "\\\\"@);
        }
    }
    assert(strings_view(r.blockers@).len() == r.blockers@.len());
}

proof fn lemma_plus(a: Seq<Seq<char>>, b: Seq<Seq<char>>, t: Seq<char>)
    ensures
        (a + b).contains(t) <==> a.contains(t) || b.contains(t),
{
    if a.contains(t) {
        let i = choose|i: int| 0 <= i < a.len() && a[i] == t;
        assert((a + b)[i] == t);
    }
    if b.contains(t) {
        let i = choose|i: int| 0 <= i < b.len() && b[i] == t;
        assert((a + b)[a.len() + i] == t);
    }
}

proof fn lemma_nine_parts(
    p1: Seq<Seq<char>>,
    p2: Seq<Seq<char>>,
    p3: Seq<Seq<char>>,
    p4: Seq<Seq<char>>,
    p5: Seq<Seq<char>>,
    p6: Seq<Seq<char>>,
    p7: Seq<Seq<char>>,
    p8: Seq<Seq<char>>,
    p9: Seq<Seq<char>>,
    t: Seq<char>,
)
    ensures
        (p1 + p2 + p3 + p4 + p5 + p6 + p7 + p8 + p9).contains(t) <==> p1.contains(t) || p2.contains(
            t,
        ) || p3.contains(t) || p4.contains(t) || p5.contains(t) || p6.contains(t) || p7.contains(t)
            || p8.contains(t) || p9.contains(t),
{
    lemma_plus(p1, p2, t);
    lemma_plus(p1 + p2, p3, t);
    lemma_plus(p1 + p2 + p3, p4, t);
    lemma_plus(p1 + p2 + p3 + p4, p5, t);
    lemma_plus(p1 + p2 + p3 + p4 + p5, p6, t);
    lemma_plus(p1 + p2 + p3 + p4 + p5 + p6, p7, t);
    lemma_plus(p1 + p2 + p3 + p4 + p5 + p6 + p7, p8, t);
    lemma_plus(p1 + p2 + p3 + p4 + p5 + p6 + p7 + p8, p9, t);
}

/// A text is among the blockers exactly where it is one of the nine.
proof fn lemma_blocker(
    src: Seq<char>,
    cfg: ConfigView,
    migs: Seq<MigrationView>,
    src_size: u64,
    f: ProbeFacts,
    t: Seq<char>,
)
    ensures
        ({
            let repo = repository_of(cfg);
            let text = source_text(src);
            blockers_of(src, cfg, migs, src_size, f).contains(t) <==> {
                ||| first_conflict(migs, src, migs.len()) == Some(t)
                ||| is_system_path(text) && t == "源路径在系统关键目录黑名单内"@
                ||| starts_with(lowercase(repo), "c:"@) && t == "仓库不能位于 C 盘（系统盘）"@
                ||| is_network(repo) && t == "仓库不能是网络路径"@
                ||| overlaps_repository(text, repo) && t == "仓库不能位于源目录内部"@
                ||| f.volume is Err && t == "无法读取目标卷信息: "@ + f.volume->Err_0.text()
                ||| !is_ntfs(f) && t == "目标卷不是 NTFS（junction 需 NTFS）"@
                ||| f.free is Err && t == "无法读取目标盘剩余空间: "@ + f.free->Err_0.text()
                ||| free_bytes(f) < needed(src_size) && t == "目标盘空间不足：需 "@ + decimal(
                    needed(src_size) as nat,
                ) + " 字节（含安全余量），实有 "@ + decimal(free_bytes(f) as nat)
            }
        }),
{
    let repo = repository_of(cfg);
    let text = source_text(src);
    let short = "目标盘空间不足：需 "@ + decimal(needed(src_size) as nat)
        + " 字节（含安全余量），实有 "@ + decimal(free_bytes(f) as nat);
    let p1 = match first_conflict(migs, src, migs.len()) {
        Some(c) => seq![c],
        None => Seq::empty(),
    };
    let p6 = failure_text(f.volume, "无法读取目标卷信息: "@);
    let p8 = failure_text(f.free, "无法读取目标盘剩余空间: "@);
    lemma_nine_parts(
        p1,
        crate::safety::when(is_system_path(text), "源路径在系统关键目录黑名单内"@),
        crate::safety::when(starts_with(lowercase(repo), "c:"@), "仓库不能位于 C 盘（系统盘）"@),
        crate::safety::when(is_network(repo), "仓库不能是网络路径"@),
        crate::safety::when(overlaps_repository(text, repo), "仓库不能位于源目录内部"@),
        p6,
        crate::safety::when(!is_ntfs(f), "目标卷不是 NTFS（junction 需 NTFS）"@),
        p8,
        crate::safety::when(free_bytes(f) < needed(src_size), short),
        t,
    );
    lemma_when(is_system_path(text), "源路径在系统关键目录黑名单内"@, t);
    lemma_when(starts_with(lowercase(repo), "c:"@), "仓库不能位于 C 盘（系统盘）"@, t);
    lemma_when(is_network(repo), "仓库不能是网络路径"@, t);
    lemma_when(overlaps_repository(text, repo), "仓库不能位于源目录内部"@, t);
    lemma_when(!is_ntfs(f), "目标卷不是 NTFS（junction 需 NTFS）"@, t);
    lemma_when(free_bytes(f) < needed(src_size), short, t);
    lemma_single(p1, t);
    lemma_single(p6, t);
    lemma_single(p8, t);
}

proof fn lemma_when(condition: bool, text: Seq<char>, t: Seq<char>)
    ensures
        crate::safety::when(condition, text).contains(t) <==> condition && t == text,
{
    if condition {
        assert(seq![text][0] == text);
    }
}

proof fn lemma_single(s: Seq<Seq<char>>, t: Seq<char>)
    requires
        s.len() <= 1,
    ensures
        s.contains(t) <==> s.len() == 1 && s[0] == t,
{
}

/// Every reason why a migration is refused is told by its own text.
pub proof fn law_refusals_are_told(
    r: PrecheckReport,
    src: Seq<char>,
    cfg: ConfigView,
    migs: Seq<MigrationView>,
    src_size: u64,
    env: EnvVarsView,
    f: ProbeFacts,
)
    requires
        is_report(r, src, cfg, migs, src_size, env, f),
    ensures
        ({
            let told = strings_view(r.blockers@);
            let repo = repository_text(cfg);
            &&& is_system_path(source_text(src)) ==> told.contains("源路径在系统关键目录黑名单内"@)
            &&& starts_with(lowercase(repo), "c:"@) ==> told.contains(
                "仓库不能位于 C 盘（系统盘）"@,
            )
            &&& starts_with(replace_char(repo, '/', '\\'), "\\\\"@) ==> told.contains(
                "仓库不能是网络路径"@,
            )
            &&& same_or_under(normalized(repo), normalized(src)) || starts_with(
                normalized(src),
                normalized(repo),
            ) ==> told.contains("仓库不能位于源目录内部"@)
            &&& !(f.volume matches Ok(v) && v.1) ==> told.contains(
                "目标卷不是 NTFS（junction 需 NTFS）"@,
            )
            &&& f.volume matches Err(e) ==> told.contains("无法读取目标卷信息: "@ + e.text())
            &&& f.free matches Err(e) ==> told.contains("无法读取目标盘剩余空间: "@ + e.text())
            &&& f.free is Ok && f.free->Ok_0 < room_for(src_size) <= u64::MAX ==> told.contains(
                "目标盘空间不足：需 "@ + decimal(room_for(src_size) as nat)
                    + " 字节（含安全余量），实有 "@ + decimal(f.free->Ok_0 as nat),
            )
        }),
{
    law_slashes_are_alike(src);
    lemma_blocker(src, cfg, migs, src_size, f, "源路径在系统关键目录黑名单内"@);
    lemma_blocker(src, cfg, migs, src_size, f, "仓库不能位于 C 盘（系统盘）"@);
    lemma_blocker(src, cfg, migs, src_size, f, "仓库不能是网络路径"@);
    lemma_blocker(src, cfg, migs, src_size, f, "仓库不能位于源目录内部"@);
    lemma_blocker(src, cfg, migs, src_size, f, "目标卷不是 NTFS（junction 需 NTFS）"@);
    match f.volume {
        Err(e) => {
            lemma_blocker(src, cfg, migs, src_size, f, "无法读取目标卷信息: "@ + e.text());
        },
        _ => {},
    }
    match f.free {
        Err(e) => {
            lemma_blocker(src, cfg, migs, src_size, f, "无法读取目标盘剩余空间: "@ + e.text());
        },
        _ => {},
    }
    if free_bytes(f) < needed(src_size) {
        lemma_blocker(
            src,
            cfg,
            migs,
            src_size,
            f,
            "目标盘空间不足：需 "@ + decimal(needed(src_size) as nat)
                + " 字节（含安全余量），实有 "@ + decimal(free_bytes(f) as nat),
        );
    }
}

/// Preset `i` is the first that covers the source.
pub open spec fn is_first_cover(
    presets: Seq<PresetView>,
    env: EnvVarsView,
    src: Seq<char>,
    i: int,
) -> bool {
    &&& 0 <= i < presets.len()
    &&& preset_covers(presets[i], src, env)
    &&& forall|j: int| 0 <= j < i ==> !preset_covers(#[trigger] presets[j], src, env)
}

proof fn lemma_first_cover(
    presets: Seq<PresetView>,
    env: EnvVarsView,
    src: Seq<char>,
    text: Seq<char>,
    i: int,
    n: nat,
)
    requires
        is_first_cover(presets, env, src, i),
        normalized(text) == normalized(src),
        n <= presets.len(),
    ensures
        covering(presets, env, text, n) == if i < n {
            Some(i)
        } else {
            None
        },
    decreases n,
{
    if n > 0 {
        lemma_first_cover(presets, env, src, text, i, (n - 1) as nat);
        assert(preset_covers(presets[n - 1], text, env) == preset_covers(
            presets[n - 1],
            src,
            env,
        ));
    }
}

proof fn lemma_running_among(names: Seq<Seq<char>>, running: Seq<Seq<char>>, n: nat, k: int)
    requires
        0 <= k < n <= names.len(),
        is_running(names[k], running),
    ensures
        running_among(names, running, n).len() > 0,
    decreases n,
{
    if k < n - 1 {
        lemma_running_among(names, running, (n - 1) as nat, k);
    }
}

/// Where a process of the preset that covers the source is running, letter case
/// aside, the user is warned.
pub proof fn law_running_programs_are_warned_about(
    r: PrecheckReport,
    src: Seq<char>,
    cfg: ConfigView,
    migs: Seq<MigrationView>,
    src_size: u64,
    env: EnvVarsView,
    f: ProbeFacts,
    i: int,
    k: int,
    m: int,
)
    requires
        is_report(r, src, cfg, migs, src_size, env, f),
        is_first_cover(cfg.presets, env, src, i),
        0 <= k < cfg.presets[i].match_processes.len(),
        f.running matches Some(Ok(running)) && 0 <= m < running@.len() && text_eq_ignore_case(
            lowercase(running@[m]@),
            lowercase(cfg.presets[i].match_processes[k]),
        ),
    ensures
        r.warnings@.len() > 0,
{
    law_slashes_are_alike(src);
    lemma_first_cover(cfg.presets, env, src, source_text(src), i, cfg.presets.len());
    let running = strings_view(f.running->0->Ok_0@);
    let names = cfg.presets[i].match_processes;
    assert(running[m] == f.running->0->Ok_0@[m]@);
    assert(is_running(names[k], running));
    lemma_running_among(names, running, names.len(), k);
    assert(preset_warning(cfg.presets[i], f).len() == 1);
    assert(warnings_of(src, cfg, env, f).len() >= 1);
    assert(strings_view(r.warnings@).len() == r.warnings@.len());
}

/// Where something holds the source open, the user is warned; where nothing does
/// and no preset covers the source, there is nothing to warn of.
pub proof fn law_open_files_are_warned_about(
    r: PrecheckReport,
    src: Seq<char>,
    cfg: ConfigView,
    migs: Seq<MigrationView>,
    src_size: u64,
    env: EnvVarsView,
    f: ProbeFacts,
)
    requires
        is_report(r, src, cfg, migs, src_size, env, f),
    ensures
        (f.locked matches Ok(Some(procs)) && procs@.len() > 0) ==> r.warnings@.len() > 0,
        !(f.locked matches Ok(Some(procs)) && procs@.len() > 0) && (forall|i: int|
            0 <= i < cfg.presets.len() ==> !preset_covers(#[trigger] cfg.presets[i], src, env))
            ==> r.warnings@.len() == 0,
{
    law_slashes_are_alike(src);
    assert(strings_view(r.warnings@).len() == r.warnings@.len());
    if forall|i: int| 0 <= i < cfg.presets.len() ==> !preset_covers(
        #[trigger] cfg.presets[i],
        src,
        env,
    ) {
        lemma_no_cover(cfg.presets, env, src, source_text(src), cfg.presets.len());
        assert(watched_preset(src, cfg, env) is None);
    }
}

proof fn lemma_no_cover(
    presets: Seq<PresetView>,
    env: EnvVarsView,
    src: Seq<char>,
    text: Seq<char>,
    n: nat,
)
    requires
        n <= presets.len(),
        normalized(text) == normalized(src),
        forall|i: int| 0 <= i < presets.len() ==> !preset_covers(#[trigger] presets[i], src, env),
    ensures
        covering(presets, env, text, n) is None,
    decreases n,
{
    if n > 0 {
        lemma_no_cover(presets, env, src, text, (n - 1) as nat);
        assert(preset_covers(presets[n - 1], text, env) == preset_covers(
            presets[n - 1],
            src,
            env,
        ));
    }
}

} // verus!
