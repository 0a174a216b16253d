//! Paths with environment variables, and the presets that are written with them.

use crate::models::PresetView;
use crate::paths::{
    expand_one, expanded, normal_expanded, normalized, preset_covers, strictly_under, EnvVarsView,
};
use crate::text::{replace_all, replace_char, starts_with, text_eq_ignore_case, trim_end};
use vstd::prelude::*;
use vstd::string::*;

verus! {

/// `name` is the name of a variable that paths may name, and `value` its value.
pub open spec fn is_variable(env: EnvVarsView, name: Seq<char>, value: Option<Seq<char>>) -> bool {
    ||| name == "USERPROFILE"@ && value == env.userprofile
    ||| name == "LOCALAPPDATA"@ && value == env.localappdata
    ||| name == "APPDATA"@ && value == env.appdata
}

/// The name of a variable as it stands in a path.
pub open spec fn quoted(name: Seq<char>) -> Seq<char> {
    seq!['%'] + name + seq!['%']
}

/// A text in which `p` does not occur stays as it is.
proof fn lemma_absent(s: Seq<char>, p: Seq<char>, v: Seq<char>)
    requires
        p.len() > 0,
        forall|i: int|
            0 <= i && i + p.len() <= s.len() ==> !(#[trigger] s[i] == p[0] && s[i + p.len() - 1]
                == p[p.len() - 1]),
    ensures
        replace_all(s, p, v) == s,
    decreases s.len(),
{
    if s.len() > 0 {
        if starts_with(s, p) {
            assert(s.take(p.len() as int)[0] == p[0]);
            assert(s.take(p.len() as int)[p.len() - 1] == p[p.len() - 1]);
            assert(s[0] == p[0]);
        }
        let rest = s.drop_first();
        assert forall|i: int| 0 <= i && i + p.len() <= rest.len() implies !(#[trigger] rest[i]
            == p[0] && rest[i + p.len() - 1] == p[p.len() - 1]) by {
            assert(rest[i] == s[i + 1]);
        }
        lemma_absent(rest, p, v);
        assert(seq![s[0]] + rest =~= s);
    }
}

/// What stands in front of a text without percent signs is replaced, and nothing else.
proof fn lemma_in_front(p: Seq<char>, t: Seq<char>, v: Seq<char>)
    requires
        p.len() > 0,
        p[0] == '%',
        !t.contains('%'),
    ensures
        replace_all(p + t, p, v) == v + t,
{
    assert((p + t).take(p.len() as int) =~= p);
    assert((p + t).skip(p.len() as int) =~= t);
    assert forall|i: int| 0 <= i && i + p.len() <= t.len() implies !(#[trigger] t[i] == p[0] && t[i
        + p.len() - 1] == p[p.len() - 1]) by {
        assert(t.contains(t[i]));
    }
    lemma_absent(t, p, v);
}

/// Another variable does not occur in front of a text without percent signs.
proof fn lemma_other(p: Seq<char>, place: Seq<char>, t: Seq<char>, v: Seq<char>)
    requires
        p.len() > 1,
        place.len() > 1,
        p.len() != place.len(),
        place[0] == '%',
        place[place.len() - 1] == '%',
        forall|i: int| 0 < i < p.len() - 1 ==> p[i] != '%',
        !t.contains('%'),
    ensures
        replace_all(p + t, place, v) == p + t,
{
    let s = p + t;
    assert forall|i: int| 0 <= i < s.len() && #[trigger] s[i] == '%' implies i == 0 || i == p.len()
        - 1 by {
        if i >= p.len() {
            assert(t.contains(t[i - p.len()]));
        }
    }
    assert forall|i: int| 0 <= i && i + place.len() <= s.len() implies !(#[trigger] s[i] == place[0]
        && s[i + place.len() - 1] == place[place.len() - 1]) by {}
    lemma_absent(s, place, v);
}

proof fn lemma_no_percent(s: Seq<char>, place: Seq<char>, v: Seq<char>)
    requires
        place.len() > 0,
        place[0] == '%',
        !s.contains('%'),
    ensures
        replace_all(s, place, v) == s,
{
    assert forall|i: int| 0 <= i && i + place.len() <= s.len() implies !(#[trigger] s[i] == place[0]
        && s[i + place.len() - 1] == place[place.len() - 1]) by {
        assert(s.contains(s[i]));
    }
    lemma_absent(s, place, v);
}

proof fn lemma_places()
    ensures
        quoted("USERPROFILE"@) == "%USERPROFILE%"@,
        quoted("LOCALAPPDATA"@) == "%LOCALAPPDATA%"@,
        quoted("APPDATA"@) == "%APPDATA%"@,
        "%USERPROFILE%"@.len() == 13,
        "%LOCALAPPDATA%"@.len() == 14,
        "%APPDATA%"@.len() == 9,
        "%USERPROFILE%"@[0] == '%' && "%USERPROFILE%"@[12] == '%',
        "%LOCALAPPDATA%"@[0] == '%' && "%LOCALAPPDATA%"@[13] == '%',
        "%APPDATA%"@[0] == '%' && "%APPDATA%"@[8] == '%',
        forall|i: int| 0 < i < 12 ==> #[trigger] "%USERPROFILE%"@[i] != '%',
        forall|i: int| 0 < i < 13 ==> #[trigger] "%LOCALAPPDATA%"@[i] != '%',
        forall|i: int| 0 < i < 8 ==> #[trigger] "%APPDATA%"@[i] != '%',
{
    reveal_strlit("USERPROFILE");
    reveal_strlit("LOCALAPPDATA");
    reveal_strlit("APPDATA");
    reveal_strlit("%USERPROFILE%");
    reveal_strlit("%LOCALAPPDATA%");
    reveal_strlit("%APPDATA%");
    assert(quoted("USERPROFILE"@) =~= "%USERPROFILE%"@);
    assert(quoted("LOCALAPPDATA"@) =~= "%LOCALAPPDATA%"@);
    assert(quoted("APPDATA"@) =~= "%APPDATA%"@);
}

/// A variable in front of a path is replaced by its value where it is set, and
/// stays where it is not; a path without variables stays as it is.
pub proof fn law_variables_are_replaced(
    env: EnvVarsView,
    name: Seq<char>,
    value: Option<Seq<char>>,
    t: Seq<char>,
)
    requires
        is_variable(env, name, value),
        value matches Some(v) ==> !v.contains('%'),
        !t.contains('%'),
    ensures
        expanded(quoted(name) + t, env) == match value {
            Some(v) => v + t,
            None => quoted(name) + t,
        },
        expanded(t, env) == t,
{
    lemma_places();
    let a = "%USERPROFILE%"@;
    let b = "%LOCALAPPDATA%"@;
    let c = "%APPDATA%"@;
    assert(expanded(t, env) == t) by {
        lemma_one_absent(t, a, env.userprofile);
        lemma_one_absent(t, b, env.localappdata);
        lemma_one_absent(t, c, env.appdata);
    }
    let p = quoted(name);
    match value {
        Some(v) => {
            lemma_in_front(p, t, v);
            let w = v + t;
            assert(!w.contains('%')) by {
                if w.contains('%') {
                    let i = choose|i: int| 0 <= i < w.len() && w[i] == '%';
                    if i < v.len() {
                        assert(v[i] == '%');
                    } else {
                        assert(t[i - v.len()] == '%');
                    }
                }
            }
            lemma_one_absent(w, b, env.localappdata);
            lemma_one_absent(w, c, env.appdata);
        },
        None => {},
    }
    if p == a {
        lemma_one_other(a, b, t, env.localappdata);
        lemma_one_other(a, c, t, env.appdata);
    } else if p == b {
        lemma_one_other(b, a, t, env.userprofile);
        lemma_one_other(b, c, t, env.appdata);
    } else {
        lemma_one_other(c, a, t, env.userprofile);
        lemma_one_other(c, b, t, env.localappdata);
    }
}

proof fn lemma_one_absent(s: Seq<char>, place: Seq<char>, value: Option<Seq<char>>)
    requires
        place.len() > 0,
        place[0] == '%',
        !s.contains('%'),
    ensures
        expand_one(s, place, value) == s,
{
    match value {
        Some(v) => {
            lemma_no_percent(s, place, v);
        },
        None => {},
    }
}

proof fn lemma_one_other(p: Seq<char>, place: Seq<char>, t: Seq<char>, value: Option<Seq<char>>)
    requires
        p.len() > 1,
        place.len() > 1,
        p.len() != place.len(),
        place[0] == '%',
        place[place.len() - 1] == '%',
        forall|i: int| 0 < i < p.len() - 1 ==> p[i] != '%',
        !t.contains('%'),
    ensures
        expand_one(p + t, place, value) == p + t,
{
    match value {
        Some(v) => {
            lemma_other(p, place, t, v);
        },
        None => {},
    }
}

/// A preset that is written with a variable covers the directory that the path
/// means once the variable is set.
pub proof fn law_preset_covers_what_it_means(
    env: EnvVarsView,
    name: Seq<char>,
    v: Seq<char>,
    t: Seq<char>,
    preset: PresetView,
    i: int,
)
    requires
        is_variable(env, name, Some(v)),
        !v.contains('%'),
        !t.contains('%'),
        0 <= i < preset.match_paths.len(),
        preset.match_paths[i] == quoted(name) + t,
    ensures
        preset_covers(preset, v + t, env),
{
    law_variables_are_replaced(env, name, Some(v), t);
    assert(text_eq_ignore_case(
        normalized(v + t),
        normal_expanded(preset.match_paths[i], env),
    ));
}

/// A preset covers every path that it names, whatever the slashes and whether or not
/// there are some at the end; and what it covers has a normal form that one of its
/// paths has too, letter case aside.
pub proof fn law_preset_covers_its_paths(
    env: EnvVarsView,
    preset: PresetView,
    p: Seq<char>,
    i: int,
)
    requires
        0 <= i < preset.match_paths.len(),
        !preset.match_paths[i].contains('%'),
    ensures
        normalized(p) == normalized(preset.match_paths[i]) ==> preset_covers(preset, p, env),
        preset.match_paths.len() == 1 && preset_covers(preset, p, env) ==> text_eq_ignore_case(
            normalized(p),
            normalized(preset.match_paths[i]),
        ),
{
    let q = preset.match_paths[i];
    lemma_places();
    lemma_one_absent(q, "%USERPROFILE%"@, env.userprofile);
    lemma_one_absent(q, "%LOCALAPPDATA%"@, env.localappdata);
    lemma_one_absent(q, "%APPDATA%"@, env.appdata);
    assert(normal_expanded(q, env) == normalized(q));
    if normalized(p) == normalized(q) {
        assert(text_eq_ignore_case(normalized(p), normal_expanded(preset.match_paths[i], env)));
    }
}

/// Separators at the end of a path do not count.
pub proof fn law_separators_at_the_end_do_not_count(p: Seq<char>, c: char)
    requires
        c == '/' || c == '\\',
    ensures
        normalized(p.push(c)) == normalized(p),
{
    let s = replace_char(p.push(c), '/', '\\');
    let t = replace_char(p, '/', '\\');
    assert(s =~= t.push('\\'));
    assert(s.drop_last() =~= t);
    assert(trim_end(s, '\\') == trim_end(t, '\\'));
}

/// A path lies inside a directory exactly where it is that directory's path with a
/// backslash and something more behind it: `cache-backup` does not lie in `cache`.
pub proof fn law_inside_means_below(p: Seq<char>, dir: Seq<char>)
    ensures
        strictly_under(p, dir) <==> exists|rest: Seq<char>| p == #[trigger] (dir.push('\\') + rest),
{
    if strictly_under(p, dir) {
        let rest = p.skip(dir.len() + 1 as int);
        assert(p =~= dir.push('\\') + rest) by {
            assert forall|i: int| 0 <= i < dir.len() implies p[i] == dir[i] by {
                assert(p.take(dir.len() as int)[i] == p[i]);
            }
        }
    }
    if exists|rest: Seq<char>| p == #[trigger] (dir.push('\\') + rest) {
        let rest = choose|rest: Seq<char>| p == #[trigger] (dir.push('\\') + rest);
        assert(p.take(dir.len() as int) =~= dir);
    }
}

} // verus!
