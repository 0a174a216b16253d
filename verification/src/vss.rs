//! Paths inside volume shadow copies.

use crate::error::AppError;
use crate::text::{chars_of, matches_at, replace_char, replaced_char, starts_with, string_of, trim_start};
use vstd::prelude::*;
use vstd::string::*;

verus! {

/// `s` without `p` at its start, however often it stands there.
pub open spec fn strip_all(s: Seq<char>, p: Seq<char>) -> Seq<char>
    decreases s.len(),
{
    if p.len() > 0 && starts_with(s, p) {
        strip_all(s.skip(p.len() as int), p)
    } else {
        s
    }
}

/// The path with backslashes only, and without the prefixes of long paths.
pub open spec fn plain_path(original: Seq<char>) -> Seq<char> {
    strip_all(strip_all(replace_char(original, '/', '\\'), "\\\\?\\"@), "\\\\.\\"@)
}

/// The path starts with a drive letter of one byte, a colon and a backslash.
pub open spec fn has_drive_root(s: Seq<char>) -> bool {
    s.len() >= 3 && (s[0] as u32) < 0x80 && s[1] == ':' && s[2] == '\\'
}

/// The path relative to the root of its drive.
pub open spec fn drive_relative(s: Seq<char>) -> Seq<char> {
    trim_start(
        if has_drive_root(s) {
            s.skip(3)
        } else {
            s
        },
        '\\',
    )
}

/// The place of a path inside a shadow copy.
pub open spec fn shadow_of(device: Seq<char>, original: Seq<char>) -> Seq<char> {
    device.push('\\') + drive_relative(plain_path(original))
}

/// Where the text without the prefixes starts.
fn skip_prefix(v: &Vec<char>, from: usize, p: &Vec<char>) -> (r: usize)
    requires
        from <= v@.len(),
        p@.len() > 0,
    ensures
        from <= r <= v@.len(),
        v@.skip(r as int) == strip_all(v@.skip(from as int), p@),
{
    let total: usize = v.len();
    let mut at: usize = from;
    while matches_at(v, at, p)
        invariant
            from <= at <= v@.len(),
            total == v@.len(),
            p@.len() > 0,
            strip_all(v@.skip(from as int), p@) == strip_all(v@.skip(at as int), p@),
        decreases v@.len() - at,
    {
        assert(v@.skip(at as int).skip(p@.len() as int) =~= v@.skip(at + p@.len()));
        at += p.len();
    }
    at
}

/// Maps a path to its place inside a shadow copy.
pub fn shadow_path(device: &str, original: &str) -> (r: String)
    ensures
        r@ == shadow_of(device@, original@),
{
    proof {
        reveal_strlit("\\\\?\\");
        reveal_strlit("\\\\.\\");
    }
    let slashed: String = replaced_char(original, '/', '\\');
    let v = chars_of(slashed.as_str());
    let ghost s = v@;
    assert(s.skip(0) =~= s);
    let long = chars_of("\\\\?\\");
    let dot = chars_of("\\\\.\\");
    let a: usize = skip_prefix(&v, 0, &long);
    let b: usize = skip_prefix(&v, a, &dot);
    let ghost plain = s.skip(b as int);
    assert(plain == plain_path(original@));
    let mut at: usize = b;
    if v.len() - b >= 3 {
        assert(plain[0] == s[b as int] && plain[1] == s[b + 1] && plain[2] == s[b + 2]);
        if (v[b] as u32) < 0x80 && v[b + 1] == ':' && v[b + 2] == '\\' {
            assert(has_drive_root(plain));
            assert(plain.skip(3) =~= s.skip(b + 3));
            at = b + 3;
        }
    }
    let ghost rel = s.skip(at as int);
    while at < v.len() && v[at] == '\\'
        invariant
            at <= v@.len(),
            s == v@,
            trim_start(rel, '\\') == trim_start(s.skip(at as int), '\\'),
        decreases v@.len() - at,
    {
        assert(s.skip(at as int).drop_first() =~= s.skip(at + 1));
        at += 1;
    }
    let tail: String = string_of(&v, at, v.len());
    assert(tail@ =~= s.skip(at as int));
    let mut out = String::from_str(device);
    out.push('\\');
    out.append(tail.as_str());
    out
}

/// The character for a hexadecimal digit.
pub open spec fn hex_digit(d: nat) -> char {
    if d < 10 {
        crate::text::digit(d)
    } else if d == 10 {
        'A'
    } else if d == 11 {
        'B'
    } else if d == 12 {
        'C'
    } else if d == 13 {
        'D'
    } else if d == 14 {
        'E'
    } else {
        'F'
    }
}

/// The `n` last hexadecimal digits of `v`.
pub open spec fn hex(v: nat, n: nat) -> Seq<char>
    decreases n,
{
    if n == 0 {
        Seq::empty()
    } else {
        hex(v / 16, (n - 1) as nat).push(hex_digit(v % 16))
    }
}

fn hex_char(d: u32) -> (r: char)
    requires
        d < 16,
    ensures
        r == hex_digit(d as nat),
{
    if d == 0 {
        '0'
    } else if d == 1 {
        '1'
    } else if d == 2 {
        '2'
    } else if d == 3 {
        '3'
    } else if d == 4 {
        '4'
    } else if d == 5 {
        '5'
    } else if d == 6 {
        '6'
    } else if d == 7 {
        '7'
    } else if d == 8 {
        '8'
    } else if d == 9 {
        '9'
    } else if d == 10 {
        'A'
    } else if d == 11 {
        'B'
    } else if d == 12 {
        'C'
    } else if d == 13 {
        'D'
    } else if d == 14 {
        'E'
    } else {
        'F'
    }
}

fn push_hex(out: &mut String, v: u32, n: u32)
    ensures
        final(out)@ == old(out)@ + hex(v as nat, n as nat),
    decreases n,
{
    if n > 0 {
        push_hex(out, v / 16, n - 1);
        out.push(hex_char(v % 16));
        assert(out@ =~= old(out)@ + hex(v as nat, n as nat));
    } else {
        assert(out@ =~= old(out)@ + hex(v as nat, 0));
    }
}

/// The error for a failed step of making a shadow copy: missing rights ask for
/// a restart as administrator, anything else is reported with its code.
pub fn map_hresult(code: u32, op: &str) -> (r: AppError)
    ensures
        if code == 0x8007_0005 {
            r matches AppError::Conflict(m) && m@ == "VSS 操作「"@ + op@
                + "」被拒绝访问：需要管理员权限，请以管理员身份重新启动本程序"@
        } else {
            r matches AppError::Vss(m) && m@ == "VSS 操作「"@ + op@ + "」失败: 0x"@ + hex(
                code as nat,
                8,
            )
        },
{
    let mut m = String::from_str("VSS 操作「");
    m.append(op);
    if code == 0x8007_0005 {
        m.append("」被拒绝访问：需要管理员权限，请以管理员身份重新启动本程序");
        return AppError::Conflict(m);
    }
    m.append("」失败: 0x");
    push_hex(&mut m, code, 8);
    AppError::Vss(m)
}

} // verus!
