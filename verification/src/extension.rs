//! The extension of a Windows path.

use crate::text::{chars_of, string_of};
use vstd::prelude::*;
use vstd::string::*;

verus! {

/// The path starts with `\\?\` and is taken literally.
pub open spec fn is_verbatim(s: Seq<char>) -> bool {
    s.len() >= 4 && s[0] == '\\' && s[1] == '\\' && s[2] == '?' && s[3] == '\\'
}

/// A character that separates the parts of a path; in a path that is taken
/// literally only the backslash does.
pub open spec fn is_separator(c: char, verbatim: bool) -> bool {
    c == '\\' || (c == '/' && !verbatim)
}

/// Where the part that starts at `from` ends.
pub open spec fn part_end(s: Seq<char>, verbatim: bool, from: int) -> int
    decreases s.len() - from,
{
    if from >= s.len() || is_separator(s[from], verbatim) {
        from
    } else {
        part_end(s, verbatim, from + 1)
    }
}

/// Where the part behind the one that ends at `at` ends, if there is one that
/// is not empty.
pub open spec fn second_part_end(s: Seq<char>, verbatim: bool, at: int) -> Option<int> {
    if at < s.len() && part_end(s, verbatim, at + 1) > at + 1 {
        Some(part_end(s, verbatim, at + 1))
    } else {
        None
    }
}

/// The path starts with two separators, `c` and a separator.
pub open spec fn is_marked(s: Seq<char>, c: char) -> bool {
    s.len() >= 4 && is_separator(s[0], false) && is_separator(s[1], false) && s[2] == c
        && is_separator(s[3], false)
}

/// The path is taken literally and names a server and a share.
pub open spec fn is_verbatim_share(s: Seq<char>) -> bool {
    is_verbatim(s) && s.len() >= 8 && s[4] == 'U' && s[5] == 'N' && s[6] == 'C' && s[7] == '\\'
}

/// A letter of a drive.
pub open spec fn is_drive_letter(c: char) -> bool {
    ('a' <= c && c <= 'z') || ('A' <= c && c <= 'Z')
}

/// How much of the path says which volume it is on: a drive such as `C:`, a
/// server and a share, or a device. It is no part of any name.
pub open spec fn prefix_len(s: Seq<char>) -> int {
    if is_verbatim_share(s) {
        let server = part_end(s, true, 8);
        match second_part_end(s, true, server) {
            Some(share) => share,
            None => server,
        }
    } else if is_verbatim(s) {
        part_end(s, true, 4)
    } else if is_marked(s, '.') {
        part_end(s, false, 4)
    } else if s.len() >= 2 && is_separator(s[0], false) && is_separator(s[1], false) {
        let server = part_end(s, false, 2);
        match second_part_end(s, false, server) {
            Some(share) => if server > 2 {
                share
            } else {
                0
            },
            None => 0,
        }
    } else if s.len() >= 2 && is_drive_letter(s[0]) && s[1] == ':' {
        2
    } else {
        0
    }
}

/// The last of the first `n` characters stands for nothing: a separator, or a
/// part that is a single dot.
pub open spec fn is_idle(s: Seq<char>, verbatim: bool, low: int, n: int) -> bool {
    is_separator(s[n - 1], verbatim) || (!verbatim && s[n - 1] == '.' && (n - 1 == low
        || is_separator(s[n - 2], verbatim)))
}

/// Where the last part of the first `n` characters ends; separators and single
/// dots behind it do not count.
pub open spec fn name_end(s: Seq<char>, verbatim: bool, low: int, n: int) -> int
    decreases n - low,
{
    if n <= low || !is_idle(s, verbatim, low, n) {
        n
    } else {
        name_end(s, verbatim, low, n - 1)
    }
}

/// Where the last part of the first `n` characters starts.
pub open spec fn name_start(s: Seq<char>, verbatim: bool, low: int, n: int) -> int
    decreases n - low,
{
    if n <= low || is_separator(s[n - 1], verbatim) {
        n
    } else {
        name_start(s, verbatim, low, n - 1)
    }
}

/// Where the last dot in `s[from..n]` stands that has something before it, or `end`.
pub open spec fn last_dot(s: Seq<char>, from: int, n: int, end: int) -> int
    decreases n - from,
{
    if n <= from + 1 {
        end
    } else if s[n - 1] == '.' {
        n - 1
    } else {
        last_dot(s, from, n - 1, end)
    }
}

/// The part stands for a directory that is not named: this one or the one above.
pub open spec fn is_dots(part: Seq<char>) -> bool {
    part == seq!['.'] || part == seq!['.', '.']
}

/// The path with the extension of its last part replaced. A path without a
/// last part that is a name stays as it is.
pub open spec fn with_new_extension(s: Seq<char>, ext: Seq<char>) -> Seq<char> {
    let verbatim = is_verbatim(s);
    let low = prefix_len(s);
    let end = name_end(s, verbatim, low, s.len() as int);
    let start = name_start(s, verbatim, low, end);
    if start == end || is_dots(s.subrange(start, end)) {
        s
    } else {
        s.take(last_dot(s, start, end, end)).push('.') + ext
    }
}

/// Whether the character separates the parts of a path.
fn separates(c: char, verbatim: bool) -> (r: bool)
    ensures
        r == is_separator(c, verbatim),
{
    c == '\\' || (c == '/' && !verbatim)
}

/// Where the part that starts at `from` ends.
fn find_part_end(v: &Vec<char>, verbatim: bool, from: usize) -> (r: usize)
    requires
        from <= v@.len(),
    ensures
        r == part_end(v@, verbatim, from as int),
        from <= r <= v@.len(),
{
    let mut at: usize = from;
    while at < v.len() && !separates(v[at], verbatim)
        invariant
            from <= at <= v@.len(),
            part_end(v@, verbatim, from as int) == part_end(v@, verbatim, at as int),
        decreases v@.len() - at,
    {
        at += 1;
    }
    at
}

/// Where the part behind the one that ends at `at` ends, if there is one that
/// is not empty.
fn find_second_part_end(v: &Vec<char>, verbatim: bool, at: usize) -> (r: Option<usize>)
    requires
        at <= v@.len(),
    ensures
        match r {
            Some(end) => second_part_end(v@, verbatim, at as int) == Some(end as int) && end
                <= v@.len(),
            None => second_part_end(v@, verbatim, at as int) is None,
        },
{
    if at >= v.len() {
        return None;
    }
    let end: usize = find_part_end(v, verbatim, at + 1);
    if end > at + 1 {
        Some(end)
    } else {
        None
    }
}

/// Whether the path starts with `\\?\`.
fn check_verbatim(v: &Vec<char>) -> (r: bool)
    ensures
        r == is_verbatim(v@),
{
    v.len() >= 4 && v[0] == '\\' && v[1] == '\\' && v[2] == '?' && v[3] == '\\'
}

/// How much of the path says which volume it is on.
fn find_prefix_len(v: &Vec<char>) -> (r: usize)
    ensures
        r == prefix_len(v@),
        r <= v@.len(),
{
    if check_verbatim(v) {
        if v.len() >= 8 && v[4] == 'U' && v[5] == 'N' && v[6] == 'C' && v[7] == '\\' {
            let server: usize = find_part_end(v, true, 8);
            return match find_second_part_end(v, true, server) {
                Some(share) => share,
                None => server,
            };
        }
        return find_part_end(v, true, 4);
    }
    if v.len() >= 2 && separates(v[0], false) && separates(v[1], false) {
        if v.len() >= 4 && v[2] == '.' && separates(v[3], false) {
            return find_part_end(v, false, 4);
        }
        let server: usize = find_part_end(v, false, 2);
        return match find_second_part_end(v, false, server) {
            Some(share) => if server > 2 {
                share
            } else {
                0
            },
            None => 0,
        };
    }
    if v.len() >= 2 && (('a' <= v[0] && v[0] <= 'z') || ('A' <= v[0] && v[0] <= 'Z')) && v[1]
        == ':' {
        2
    } else {
        0
    }
}

/// Whether the last of the first `n` characters stands for nothing.
fn check_idle(v: &Vec<char>, verbatim: bool, low: usize, n: usize) -> (r: bool)
    requires
        low < n <= v@.len(),
    ensures
        r == is_idle(v@, verbatim, low as int, n as int),
{
    separates(v[n - 1], verbatim) || (!verbatim && v[n - 1] == '.' && (n - 1 == low || separates(
        v[n - 2],
        verbatim,
    )))
}

/// The path with the extension of its last part replaced.
pub fn with_extension(path: &str, ext: &str) -> (r: String)
    ensures
        r@ == with_new_extension(path@, ext@),
{
    let v = chars_of(path);
    let ghost s = path@;
    let verbatim: bool = check_verbatim(&v);
    let low: usize = find_prefix_len(&v);
    let mut end: usize = v.len();
    while end > low && check_idle(&v, verbatim, low, end)
        invariant
            low <= end <= v@.len(),
            s == v@,
            name_end(s, verbatim, low as int, s.len() as int) == name_end(
                s,
                verbatim,
                low as int,
                end as int,
            ),
        decreases end,
    {
        end -= 1;
    }
    let mut start: usize = end;
    while start > low && !separates(v[start - 1], verbatim)
        invariant
            low <= start <= end <= v@.len(),
            s == v@,
            name_start(s, verbatim, low as int, end as int) == name_start(
                s,
                verbatim,
                low as int,
                start as int,
            ),
        decreases start,
    {
        start -= 1;
    }
    let dots: bool = (end - start == 1 && v[start] == '.') || (end - start == 2 && v[start] == '.'
        && v[start + 1] == '.');
    proof {
        let name = s.subrange(start as int, end as int);
        let here = seq!['.'];
        let up = seq!['.', '.'];
        assert(here.len() == 1 && here[0] == '.');
        assert(up.len() == 2 && up[0] == '.' && up[1] == '.');
        if dots {
            assert(name =~= here || name =~= up);
        } else if name == here {
            assert(name.len() == end - start);
            assert(name[0] == s[start as int]);
        } else if name == up {
            assert(name.len() == end - start);
            assert(name[0] == s[start as int] && name[1] == s[start + 1]);
        }
    }
    if start == end || dots {
        return String::from_str(path);
    }
    let mut n: usize = end;
    while n > start + 1 && v[n - 1] != '.'
        invariant
            start < end <= v@.len(),
            start < n <= end,
            s == v@,
            last_dot(s, start as int, end as int, end as int) == last_dot(
                s,
                start as int,
                n as int,
                end as int,
            ),
        decreases n,
    {
        n -= 1;
    }
    let dot: usize = if n > start + 1 {
        n - 1
    } else {
        end
    };
    let mut out: String = string_of(&v, 0, dot);
    assert(v@.subrange(0, dot as int) =~= s.take(dot as int));
    out.push('.');
    out.append(ext);
    out
}

// ---------------------------------------------------------------------------
// Laws
// ---------------------------------------------------------------------------

/// A path that names nothing but a drive and its root stays as it is.
pub proof fn law_root_has_no_extension(letter: char, separator: char, ext: Seq<char>)
    requires
        is_drive_letter(letter),
        is_separator(separator, false),
    ensures
        with_new_extension(seq![letter, ':', separator], ext) == seq![letter, ':', separator],
        with_new_extension(seq![letter, ':'], ext) == seq![letter, ':'],
{
    reveal_with_fuel(name_end, 3);
}

} // verus!
