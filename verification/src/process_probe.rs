//! Names of running processes.

use crate::text::{
    chars_of, eq_ignore_ascii_case, from_utf16_lossy, lowercase, string_of, text_eq_ignore_case,
    to_lowercase, utf16_lossy,
};
use crate::models::strings_view;
use vstd::prelude::*;
use vstd::string::*;

verus! {

/// The code units before the first zero.
pub open spec fn until_zero(units: Seq<u16>, n: nat) -> Seq<u16>
    decreases units.len() - n,
{
    if n >= units.len() || units[n as int] == 0 {
        units.take(n as int)
    } else {
        until_zero(units, n + 1)
    }
}

/// The text in a buffer that a zero ends.
pub fn wide_to_string(buf: &[u16]) -> (r: String)
    ensures
        r@ == utf16_lossy(until_zero(buf@, 0)),
{
    let mut n: usize = 0;
    while n < buf.len() && buf[n] != 0
        invariant
            n <= buf@.len(),
            until_zero(buf@, 0) == until_zero(buf@, n as nat),
        decreases buf@.len() - n,
    {
        n += 1;
    }
    let head = vstd::slice::slice_subrange(buf, 0, n);
    assert(head@ =~= buf@.take(n as int));
    from_utf16_lossy(head)
}

/// The name ends in `.exe`, letter case aside, and has something before it.
pub open spec fn has_exe_suffix(name: Seq<char>) -> bool {
    name.len() > 4 && text_eq_ignore_case(name.skip(name.len() - 4), ".exe"@)
}

/// The name without `.exe`.
pub open spec fn without_exe(name: Seq<char>) -> Seq<char> {
    if has_exe_suffix(name) {
        name.take(name.len() - 4)
    } else {
        name
    }
}

/// The name without `.exe`.
pub fn strip_exe_suffix(name: &str) -> (r: String)
    ensures
        r@ == without_exe(name@),
{
    let v = chars_of(name);
    if v.len() > 4 {
        let tail: String = string_of(&v, v.len() - 4, v.len());
        assert(tail@ =~= name@.skip(name@.len() - 4));
        if eq_ignore_ascii_case(tail.as_str(), ".exe") {
            assert(v@.subrange(0, v@.len() - 4) =~= name@.take(name@.len() - 4));
            return string_of(&v, 0, v.len() - 4);
        }
    }
    String::from_str(name)
}

/// The name under which a process is listed: in lower case and without `.exe`.
pub open spec fn process_name(name: Seq<char>) -> Seq<char> {
    lowercase(without_exe(name))
}

/// The names of the first `n` processes; empty ones are left out.
pub open spec fn process_names(names: Seq<Seq<char>>, n: nat) -> Seq<Seq<char>>
    decreases n,
{
    if n == 0 {
        Seq::empty()
    } else {
        let before = process_names(names, (n - 1) as nat);
        let name = process_name(names[n - 1]);
        if name.len() == 0 {
            before
        } else {
            before.push(name)
        }
    }
}

/// The names of the running processes, given the names of their programs.
pub fn running_process_names(programs: &[String]) -> (r: Vec<String>)
    ensures
        strings_view(r@) == process_names(strings_view(programs@), programs@.len()),
{
    let ghost all = strings_view(programs@);
    let mut out: Vec<String> = Vec::new();
    let mut i: usize = 0;
    assert(strings_view(out@) =~= Seq::<Seq<char>>::empty());
    while i < programs.len()
        invariant
            i <= programs@.len(),
            all == strings_view(programs@),
            strings_view(out@) == process_names(all, i as nat),
        decreases programs@.len() - i,
    {
        assert(all[i as int] == programs@[i as int]@);
        let name = to_lowercase(strip_exe_suffix(programs[i].as_str()).as_str());
        let ghost before = strings_view(out@);
        if !name.as_str().is_empty() {
            out.push(name);
            assert(strings_view(out@) =~= before.push(name@));
        }
        i += 1;
    }
    out
}

} // verus!
