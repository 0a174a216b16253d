//! Paths: their normal form, containment, and environment variables in them.

use crate::models::{strings_view, Preset, PresetView};
use crate::text::{
    ascii_lowered, chars_of, ends_with_char, eq_ignore_ascii_case, lowercase, matches_at,
    replace_all, replace_char, replaced_all, replaced_char, starts_with, str_eq,
    text_eq_ignore_case, to_lowercase, trim_end, trimmed_end,
};
use vstd::prelude::*;
use vstd::string::*;
use vstd::utf8::is_ascii_chars;

verus! {

/// The normal form of a path: backslashes only, none at the end, lower case.
pub open spec fn normalized(p: Seq<char>) -> Seq<char> {
    lowercase(trim_end(replace_char(p, '/', '\\'), '\\'))
}

/// What is left of a text after trimming stood in it.
proof fn lemma_trimmed_chars(s: Seq<char>, c: char)
    ensures
        trim_end(s, c).len() <= s.len(),
        forall|i: int| 0 <= i < trim_end(s, c).len() ==> #[trigger] trim_end(s, c)[i] == s[i],
    decreases s.len(),
{
    if s.len() > 0 && s.last() == c {
        lemma_trimmed_chars(s.drop_last(), c);
    }
}

/// The normal form of a path. In a path of ASCII characters the capital letters
/// become small.
pub fn normalize(p: &str) -> (r: String)
    ensures
        r@ == normalized(p@),
        is_ascii_chars(p@) ==> r@ == ascii_lowered(trim_end(replace_char(p@, '/', '\\'), '\\')),
{
    let slashed = replaced_char(p, '/', '\\');
    let trimmed = trimmed_end(slashed.as_str(), '\\');
    proof {
        lemma_trimmed_chars(slashed@, '\\');
    }
    to_lowercase(trimmed.as_str())
}

/// The path `p` lies strictly inside `dir`; both are in normal form.
pub open spec fn strictly_under(p: Seq<char>, dir: Seq<char>) -> bool {
    starts_with(p, dir) && p.len() > dir.len() && p[dir.len() as int] == '\\'
}

/// The path `p` is `dir` or lies inside it; both are in normal form.
pub open spec fn same_or_under(p: Seq<char>, dir: Seq<char>) -> bool {
    p == dir || strictly_under(p, dir)
}

/// Whether the path `p` lies strictly inside `dir`.
pub fn is_strictly_under(p: &str, dir: &str) -> (r: bool)
    ensures
        r == strictly_under(p@, dir@),
{
    let v = chars_of(p);
    let d = chars_of(dir);
    assert(v@.skip(0) =~= v@);
    matches_at(&v, 0, &d) && v.len() > d.len() && v[d.len()] == '\\'
}

/// One of the directories in `exclude` is the path or contains it.
pub open spec fn excluded_by(p: Seq<char>, exclude: Seq<Seq<char>>) -> bool {
    exists|i: int| 0 <= i < exclude.len() && same_or_under(p, #[trigger] exclude[i])
}

/// Whether one of the directories in `exclude` is the path or contains it. All
/// are in normal form.
pub fn is_path_excluded(normalized_path: &str, exclude: &[String]) -> (r: bool)
    ensures
        r == excluded_by(normalized_path@, strings_view(exclude@)),
{
    let ghost all = strings_view(exclude@);
    let mut i: usize = 0;
    while i < exclude.len()
        invariant
            i <= exclude@.len(),
            all == strings_view(exclude@),
            forall|j: int| 0 <= j < i ==> !same_or_under(normalized_path@, #[trigger] all[j]),
        decreases exclude@.len() - i,
    {
        let e: &str = exclude[i].as_str();
        assert(all[i as int] == e@);
        if str_eq(normalized_path, e) || is_strictly_under(normalized_path, e) {
            return true;
        }
        i += 1;
    }
    false
}

// ---------------------------------------------------------------------------
// Environment variables
// ---------------------------------------------------------------------------

/// The environment variables that paths may name, as far as they are set.
#[derive(Debug, Clone)]
pub struct EnvVars {
    pub userprofile: Option<String>,
    pub localappdata: Option<String>,
    pub appdata: Option<String>,
}

/// Model of [`EnvVars`].
pub struct EnvVarsView {
    pub userprofile: Option<Seq<char>>,
    pub localappdata: Option<Seq<char>>,
    pub appdata: Option<Seq<char>>,
}

impl View for EnvVars {
    type V = EnvVarsView;

    open spec fn view(&self) -> EnvVarsView {
        EnvVarsView {
            userprofile: crate::models::opt_view(self.userprofile),
            localappdata: crate::models::opt_view(self.localappdata),
            appdata: crate::models::opt_view(self.appdata),
        }
    }
}

/// `p` with `place` replaced by the variable's value, if it is set.
pub open spec fn expand_one(p: Seq<char>, place: Seq<char>, value: Option<Seq<char>>) -> Seq<char> {
    match value {
        Some(v) => replace_all(p, place, v),
        None => p,
    }
}

/// `p` with the variables replaced, one after the other. One that is not set
/// stays as it is.
pub open spec fn expanded(p: Seq<char>, env: EnvVarsView) -> Seq<char> {
    expand_one(
        expand_one(
            expand_one(p, "%USERPROFILE%"@, env.userprofile),
            "%LOCALAPPDATA%"@,
            env.localappdata,
        ),
        "%APPDATA%"@,
        env.appdata,
    )
}

/// Replaces `place` in `p` by the variable's value, if it is set.
fn expand_variable(p: String, place: &str, value: &Option<String>) -> (r: String)
    requires
        place@.len() > 0,
    ensures
        r@ == expand_one(p@, place@, crate::models::opt_view(*value)),
{
    match value {
        Some(v) => replaced_all(p.as_str(), place, v.as_str()),
        None => p,
    }
}

/// Replaces the environment variables in a path.
pub fn expand_env(p: &str, env: &EnvVars) -> (r: String)
    ensures
        r@ == expanded(p@, env@),
{
    proof {
        reveal_strlit("%USERPROFILE%");
        reveal_strlit("%LOCALAPPDATA%");
        reveal_strlit("%APPDATA%");
    }
    let a = expand_variable(String::from_str(p), "%USERPROFILE%", &env.userprofile);
    let b = expand_variable(a, "%LOCALAPPDATA%", &env.localappdata);
    expand_variable(b, "%APPDATA%", &env.appdata)
}

/// The normal form of a path with environment variables.
pub open spec fn normal_expanded(p: Seq<char>, env: EnvVarsView) -> Seq<char> {
    normalized(expanded(p, env))
}

/// The normal forms of those of the first `n` paths whose normal form is not empty.
pub open spec fn normal_list(paths: Seq<Seq<char>>, env: EnvVarsView, n: nat) -> Seq<Seq<char>>
    decreases n,
{
    if n == 0 {
        Seq::empty()
    } else {
        let before = normal_list(paths, env, (n - 1) as nat);
        let p = normal_expanded(paths[n - 1], env);
        if p.len() == 0 {
            before
        } else {
            before.push(p)
        }
    }
}

/// The excluded directories in normal form; empty ones are left out.
pub fn normalize_excluded(paths: &[String], env: &EnvVars) -> (r: Vec<String>)
    ensures
        strings_view(r@) == normal_list(strings_view(paths@), env@, paths@.len()),
{
    let mut out: Vec<String> = Vec::new();
    let mut i: usize = 0;
    assert(strings_view(out@) =~= Seq::<Seq<char>>::empty());
    while i < paths.len()
        invariant
            i <= paths@.len(),
            strings_view(out@) == normal_list(strings_view(paths@), env@, i as nat),
        decreases paths@.len() - i,
    {
        let n = normalize(expand_env(paths[i].as_str(), env).as_str());
        let ghost before = strings_view(out@);
        if !n.as_str().is_empty() {
            out.push(n);
            assert(strings_view(out@) =~= before.push(n@));
        }
        i += 1;
    }
    out
}

// ---------------------------------------------------------------------------
// Presets
// ---------------------------------------------------------------------------

/// One of the preset's paths is the path, letter case aside.
pub open spec fn preset_covers(preset: PresetView, path: Seq<char>, env: EnvVarsView) -> bool {
    exists|i: int|
        0 <= i < preset.match_paths.len() && text_eq_ignore_case(
            normalized(path),
            normal_expanded(#[trigger] preset.match_paths[i], env),
        )
}

/// Whether one of the preset's paths is the path, letter case aside.
pub fn matches_preset(actual_path: &str, preset: &Preset, env: &EnvVars) -> (r: bool)
    ensures
        r == preset_covers(preset@, actual_path@, env@),
{
    let norm_actual = normalize(actual_path);
    let ghost all = preset@.match_paths;
    let mut i: usize = 0;
    while i < preset.match_paths.len()
        invariant
            i <= preset.match_paths@.len(),
            all == strings_view(preset.match_paths@),
            norm_actual@ == normalized(actual_path@),
            forall|j: int|
                0 <= j < i ==> !text_eq_ignore_case(
                    normalized(actual_path@),
                    normal_expanded(#[trigger] all[j], env@),
                ),
        decreases preset.match_paths@.len() - i,
    {
        let n = normalize(expand_env(preset.match_paths[i].as_str(), env).as_str());
        assert(preset@.match_paths[i as int] == preset.match_paths@[i as int]@);
        assert(all[i as int] == preset.match_paths@[i as int]@);
        if eq_ignore_ascii_case(norm_actual.as_str(), n.as_str()) {
            return true;
        }
        i += 1;
    }
    false
}

// ---------------------------------------------------------------------------
// Joining
// ---------------------------------------------------------------------------

/// The path of `name` in the directory `dir`.
pub open spec fn joined(dir: Seq<char>, name: Seq<char>) -> Seq<char> {
    if dir.len() > 0 && dir.last() == '\\' {
        dir + name
    } else {
        dir.push('\\') + name
    }
}

/// The path of `name` in the directory `dir`.
pub fn join_path(dir: &str, name: &str) -> (r: String)
    ensures
        r@ == joined(dir@, name@),
{
    let mut out = String::from_str(dir);
    if !ends_with_char(dir, '\\') {
        out.push('\\');
    }
    out.append(name);
    out
}

/// The path of the root directory of a drive.
pub open spec fn drive_root(drive: char) -> Seq<char> {
    seq![drive, ':', '\\']
}

/// The path of the root directory of a drive.
pub fn drive_root_path(drive: char) -> (r: String)
    ensures
        r@ == drive_root(drive),
{
    let mut out = String::new();
    out.push(drive);
    out.push(':');
    out.push('\\');
    assert(out@ =~= drive_root(drive));
    out
}

// ---------------------------------------------------------------------------
// Laws
// ---------------------------------------------------------------------------

/// What lies in a directory lies in every directory that contains it.
pub proof fn law_containment_is_transitive(p: Seq<char>, dir: Seq<char>, outer: Seq<char>)
    requires
        same_or_under(p, dir),
        same_or_under(dir, outer),
    ensures
        same_or_under(p, outer),
{
    if p != dir && dir != outer {
        assert(p.take(outer.len() as int) =~= p.take(dir.len() as int).take(outer.len() as int));
        assert(p[outer.len() as int] == p.take(dir.len() as int)[outer.len() as int]);
    }
}

/// A directory does not contain its neighbours, even where its name is the
/// beginning of theirs.
pub proof fn law_neighbour_is_not_inside(dir: Seq<char>, rest: Seq<char>)
    requires
        rest.len() > 0,
        rest[0] != '\\',
    ensures
        !same_or_under(dir + rest, dir),
{
    assert((dir + rest)[dir.len() as int] == rest[0]);
}

/// No two directories contain each other.
pub proof fn law_containment_has_one_direction(a: Seq<char>, b: Seq<char>)
    requires
        strictly_under(a, b),
    ensures
        !same_or_under(b, a),
{
}

} // verus!
