//! The system around: shadow copies, processes, drives, and names beside names.

use crate::extension::{
    is_dots, is_drive_letter, is_separator, is_verbatim, last_dot, name_end, name_start, prefix_len,
    with_new_extension,
};
use crate::mft::reader::geometry_fault;
use crate::mft::types::MftError;
use crate::process_probe::{process_name, process_names, until_zero};
use crate::scanner::engine::{mft_scan_error, volume_scan_error};
use crate::scanner::fs::{workers_for, DriveKind};
use crate::text::{
    lowercase, replace_char, starts_with, text_eq_ignore_case, trim_start,
};
use crate::vss::{has_drive_root, hex, hex_digit, plain_path, shadow_of};
use crate::win32::{VolumeData, VolumeError};
use vstd::prelude::*;
use vstd::string::*;

verus! {

// ---------------------------------------------------------------------------
// Shadow copies
// ---------------------------------------------------------------------------

/// A path on a drive is found inside the shadow copy at the same place below the
/// device, whatever the slashes.
pub proof fn law_shadow_keeps_the_place(device: Seq<char>, letter: char, rest: Seq<char>)
    requires
        is_drive_letter(letter),
        rest.len() > 0 ==> rest[0] != '\\' && rest[0] != '/',
    ensures
        shadow_of(device, seq![letter, ':', '\\'] + rest) == device.push('\\') + replace_char(
            rest,
            '/',
            '\\',
        ),
        shadow_of(device, seq![letter, ':', '/'] + rest) == device.push('\\') + replace_char(
            rest,
            '/',
            '\\',
        ),
{
    lemma_shadow(device, letter, '\\', rest);
    lemma_shadow(device, letter, '/', rest);
}

proof fn lemma_shadow(device: Seq<char>, letter: char, c: char, rest: Seq<char>)
    requires
        is_drive_letter(letter),
        c == '\\' || c == '/',
        rest.len() > 0 ==> rest[0] != '\\' && rest[0] != '/',
    ensures
        shadow_of(device, seq![letter, ':', c] + rest) == device.push('\\') + replace_char(
            rest,
            '/',
            '\\',
        ),
{
    let tail = replace_char(rest, '/', '\\');
    let s = seq![letter, ':', '\\'] + tail;
    assert(replace_char(seq![letter, ':', c] + rest, '/', '\\') =~= s);
    reveal_strlit("\\\\?\\");
    reveal_strlit("\\\\.\\");
    assert(s[0] == letter);
    assert(!starts_with(s, "\\\\?\\"@)) by {
        if starts_with(s, "\\\\?\\"@) {
            assert(s.take(4)[0] == s[0]);
        }
    }
    assert(!starts_with(s, "\\\\.\\"@)) by {
        if starts_with(s, "\\\\.\\"@) {
            assert(s.take(4)[0] == s[0]);
        }
    }
    assert(plain_path(seq![letter, ':', c] + rest) == s);
    assert(has_drive_root(s));
    assert(s.skip(3) =~= tail);
    if tail.len() > 0 {
        assert(tail[0] == rest[0]);
    }
    assert(trim_start(tail, '\\') == tail);
}

// ---------------------------------------------------------------------------
// Processes
// ---------------------------------------------------------------------------

/// A program is known by its name in small letters, without `.exe`, whatever the case
/// of these letters.
pub proof fn law_programs_are_known_without_exe(base: Seq<char>, suffix: Seq<char>)
    requires
        base.len() > 0,
        text_eq_ignore_case(suffix, ".exe"@),
    ensures
        process_name(base + suffix) == lowercase(base),
        !text_eq_ignore_case(base, ".exe"@) && base.len() <= 4 ==> process_name(base) == lowercase(
            base,
        ),
{
    reveal_strlit(".exe");
    let name = base + suffix;
    assert(name.skip(name.len() - 4) =~= suffix);
    assert(name.take(name.len() - 4) =~= base);
}

proof fn lemma_process_names(names: Seq<Seq<char>>, n: nat, p: Seq<char>)
    requires
        n <= names.len(),
    ensures
        process_names(names, n).contains(p) <==> p.len() > 0 && exists|i: int|
            0 <= i < n && process_name(#[trigger] names[i]) == p,
    decreases n,
{
    if n > 0 {
        let m = (n - 1) as nat;
        lemma_process_names(names, m, p);
        let before = process_names(names, m);
        let now = process_names(names, n);
        if now.contains(p) {
            let k = choose|k: int| 0 <= k < now.len() && now[k] == p;
            if k < before.len() {
                assert(before[k] == p);
                assert(before.contains(p));
                let i = choose|i: int| 0 <= i < m && process_name(#[trigger] names[i]) == p;
                assert(process_name(names[i]) == p);
            } else {
                assert(process_name(names[m as int]) == p);
            }
        }
        if p.len() > 0 && exists|i: int| 0 <= i < n && process_name(#[trigger] names[i]) == p {
            let i = choose|i: int| 0 <= i < n && process_name(#[trigger] names[i]) == p;
            if i < m {
                assert(before.contains(p));
                let k = choose|k: int| 0 <= k < before.len() && before[k] == p;
                assert(now[k] == p);
            } else {
                assert(now[before.len() as int] == p);
            }
        }
    }
}

/// Every running program is among the running processes, under the name by which it is
/// known.
pub proof fn law_every_program_is_listed(names: Seq<Seq<char>>, p: Seq<char>)
    ensures
        process_names(names, names.len()).contains(p) <==> p.len() > 0 && exists|i: int|
            0 <= i < names.len() && process_name(#[trigger] names[i]) == p,
{
    lemma_process_names(names, names.len(), p);
}

// ---------------------------------------------------------------------------
// Drives
// ---------------------------------------------------------------------------

/// Slow drives are read by one worker, others by as many as the machine can run, but
/// by one at least and four at most.
pub proof fn law_workers_fit_the_drive(kind: DriveKind, available: usize)
    ensures
        1 <= workers_for(kind, available) <= 4,
        kind == DriveKind::Removable || kind == DriveKind::Network ==> workers_for(kind, available)
            == 1,
        (kind == DriveKind::Fixed || kind == DriveKind::Other) && 1 <= available <= 4
            ==> workers_for(kind, available) == available,
        (kind == DriveKind::Fixed || kind == DriveKind::Other) && available > 4 ==> workers_for(
            kind,
            available,
        ) == 4,
{
}

/// A volume is accepted exactly where it has records of some size and is of NTFS
/// version 3.1.
pub proof fn law_only_ntfs_three_one_is_accepted(v: VolumeData)
    ensures
        geometry_fault(v) is None <==> v.slot_count > 0 && v.bytes_per_file_record_segment > 0
            && v.major_version == 3 && v.minor_version == 1,
{
}

/// Missing rights ask for more, a cancellation stays one, and everything else says why
/// the fast scan is not possible.
pub proof fn law_scan_errors_are_told_apart(e: MftError, v: VolumeError)
    ensures
        mft_scan_error(e) is NeedsElevation <==> e is NeedElevation,
        mft_scan_error(e) is Cancelled <==> e is Cancelled,
        mft_scan_error(e) is FastScanFailure <==> !(e is NeedElevation) && !(e is Cancelled),
        volume_scan_error(v) is NeedsElevation <==> v is AccessDenied,
        volume_scan_error(v) is FastScanFailure <==> !(v is AccessDenied),
{
}

// ---------------------------------------------------------------------------
// Names beside names
// ---------------------------------------------------------------------------

proof fn lemma_name(s: Seq<char>, low: int, at: int)
    requires
        0 <= low <= at < s.len(),
        at == low || is_separator(s[at - 1], false),
        forall|i: int| at <= i < s.len() ==> !is_separator(#[trigger] s[i], false),
        s[s.len() - 1] != '.',
    ensures
        name_end(s, false, low, s.len() as int) == s.len(),
        name_start(s, false, low, s.len() as int) == at,
{
    lemma_start(s, low, at, s.len() as int);
}

proof fn lemma_start(s: Seq<char>, low: int, at: int, n: int)
    requires
        0 <= low <= at <= n <= s.len(),
        at == low || is_separator(s[at - 1], false),
        forall|i: int| at <= i < s.len() ==> !is_separator(#[trigger] s[i], false),
    ensures
        name_start(s, false, low, n) == at,
    decreases n,
{
    if n > at {
        assert(!is_separator(s[n - 1], false));
        lemma_start(s, low, at, n - 1);
    }
}

proof fn lemma_no_dot(s: Seq<char>, from: int, n: int, end: int)
    requires
        0 <= from <= n <= s.len(),
        forall|i: int| from < i < n ==> #[trigger] s[i] != '.',
    ensures
        last_dot(s, from, n, end) == end,
    decreases n - from,
{
    if n > from + 1 {
        lemma_no_dot(s, from, n - 1, end);
    }
}

proof fn lemma_dot_at(s: Seq<char>, from: int, dot: int, n: int, end: int)
    requires
        0 <= from < dot < n <= s.len(),
        s[dot] == '.',
        forall|i: int| dot < i < n ==> #[trigger] s[i] != '.',
    ensures
        last_dot(s, from, n, end) == dot,
    decreases n - from,
{
    if n > dot + 1 {
        lemma_dot_at(s, from, dot, n - 1, end);
    }
}

/// A name without dots and separators.
pub open spec fn is_plain(name: Seq<char>) -> bool {
    name.len() > 0 && !name.contains('\\') && !name.contains('/') && !name.contains('.')
}

/// A path on a drive whose last part has no extension gets one, and the extension of one
/// that has one is replaced; the directory stays the same.
pub proof fn law_extension_goes_to_the_last_name(
    letter: char,
    dir: Seq<char>,
    c: char,
    name: Seq<char>,
    old: Seq<char>,
    ext: Seq<char>,
)
    requires
        is_drive_letter(letter),
        c == '\\' || c == '/',
        is_plain(name),
        is_plain(old),
    ensures
        ({
            let head = (seq![letter, ':'] + dir).push(c);
            &&& with_new_extension(head + name, ext) == (head + name).push('.') + ext
            &&& with_new_extension((head + name).push('.') + old, ext) == (head + name).push('.')
                + ext
        }),
{
    let head = (seq![letter, ':'] + dir).push(c);
    let at = head.len() as int;
    let s = head + name;
    lemma_drive(s, letter);
    assert forall|i: int| at <= i < s.len() implies !is_separator(#[trigger] s[i], false) && s[i]
        != '.' by {
        assert(name.contains(name[i - at]));
    }
    assert(s[at - 1] == c);
    lemma_name(s, 2, at);
    lemma_no_dot(s, at, s.len() as int, s.len() as int);
    assert(s.take(s.len() as int) =~= s);
    lemma_not_dots(s.subrange(at, s.len() as int), name);
    let t = (head + name).push('.') + old;
    let dot = (head + name).len() as int;
    lemma_drive(t, letter);
    assert forall|i: int| at <= i < t.len() implies !is_separator(#[trigger] t[i], false) && (i
        != dot ==> t[i] != '.') by {
        if i < dot {
            assert(t[i] == name[i - at]);
            assert(name.contains(name[i - at]));
        } else if i > dot {
            assert(t[i] == old[i - dot - 1]);
            assert(old.contains(old[i - dot - 1]));
        }
    }
    assert(t[at - 1] == c);
    assert(t[t.len() - 1] != '.');
    lemma_name(t, 2, at);
    lemma_dot_at(t, at, dot, t.len() as int, t.len() as int);
    assert(t.take(dot) =~= head + name);
    let part = t.subrange(at, t.len() as int);
    assert(part.len() >= 3);
    assert(!is_dots(part)) by {
        assert(seq!['.'].len() == 1);
        assert(seq!['.', '.'].len() == 2);
    }
}

proof fn lemma_not_dots(part: Seq<char>, name: Seq<char>)
    requires
        part =~= name,
        is_plain(name),
    ensures
        !is_dots(part),
{
    assert(name.contains(name[0]));
    assert(seq!['.'][0] == '.');
    assert(seq!['.', '.'][0] == '.');
}

proof fn lemma_drive(s: Seq<char>, letter: char)
    requires
        is_drive_letter(letter),
        s.len() >= 2,
        s[0] == letter,
        s[1] == ':',
    ensures
        prefix_len(s) == 2,
        !is_verbatim(s),
{
}

/// The value of a hexadecimal digit.
pub open spec fn hex_value(c: char) -> nat {
    if '0' <= c && c <= '9' {
        (c as u32 - '0' as u32) as nat
    } else if 'A' <= c && c <= 'F' {
        (c as u32 - 'A' as u32 + 10) as nat
    } else {
        0
    }
}

/// The number that the digits spell.
pub open spec fn hex_number(s: Seq<char>) -> nat
    decreases s.len(),
{
    if s.len() == 0 {
        0
    } else {
        16 * hex_number(s.drop_last()) + hex_value(s.last())
    }
}

/// 16 to the power `n`.
pub open spec fn hex_limit(n: nat) -> nat
    decreases n,
{
    if n == 0 {
        1
    } else {
        16 * hex_limit((n - 1) as nat)
    }
}

/// A number that is written with so many hexadecimal digits has so many digits, and
/// they spell it.
pub proof fn law_code_is_spelled_out(v: nat, n: nat)
    requires
        v < hex_limit(n),
    ensures
        hex(v, n).len() == n,
        hex_number(hex(v, n)) == v,
    decreases n,
{
    if n > 0 {
        law_code_is_spelled_out(v / 16, (n - 1) as nat);
        let s = hex(v, n);
        assert(s.drop_last() =~= hex(v / 16, (n - 1) as nat));
        assert(hex_value(hex_digit(v % 16)) == v % 16);
    }
}

/// A text that a zero ends is all that stands before the first zero.
pub proof fn law_text_ends_at_the_zero(text: Seq<u16>, rest: Seq<u16>)
    requires
        !text.contains(0),
    ensures
        until_zero(text.push(0) + rest, 0) == text,
        until_zero(text, 0) == text,
{
    lemma_until_zero(text.push(0) + rest, text, 0);
    lemma_until_zero(text, text, 0);
}

proof fn lemma_until_zero(buf: Seq<u16>, text: Seq<u16>, n: nat)
    requires
        n <= text.len() <= buf.len(),
        !text.contains(0),
        forall|i: int| 0 <= i < text.len() ==> #[trigger] buf[i] == text[i],
        buf.len() > text.len() ==> buf[text.len() as int] == 0,
    ensures
        until_zero(buf, n) == text,
    decreases text.len() - n,
{
    if n < text.len() {
        assert(text.contains(text[n as int]));
        lemma_until_zero(buf, text, n + 1);
    } else {
        assert(buf.take(n as int) =~= text);
    }
}

} // verus!
