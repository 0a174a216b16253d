//! Little-endian integers inside byte sequences.

use super::types::MftError;
use crate::text::{from_utf16_lossy, utf16_lossy};
use vstd::prelude::*;

verus! {

/// 256 to the power `n`.
pub open spec fn radix(n: nat) -> nat
    decreases n,
{
    if n == 0 {
        1
    } else {
        256 * radix((n - 1) as nat)
    }
}

/// The value of the `n` bytes of `b` that start at `at`, lowest byte first.
pub open spec fn le(b: Seq<u8>, at: int, n: nat) -> nat
    decreases n,
{
    if n == 0 {
        0
    } else {
        b[at] as nat + 256 * le(b, at + 1, (n - 1) as nat)
    }
}

/// An `n`-byte value read as a two's complement integer.
pub open spec fn signed(value: nat, n: nat) -> int {
    if 2 * value >= radix(n) {
        value - radix(n)
    } else {
        value as int
    }
}

/// The `n` UTF-16 code units of `b` that start at byte `at`.
pub open spec fn units(b: Seq<u8>, at: int, n: nat) -> Seq<u16> {
    Seq::new(n, |i: int| le(b, at + 2 * i, 2) as u16)
}

/// `items` in front of `rest`; nothing where there is no `rest`.
pub open spec fn prefixed<T>(items: Seq<T>, rest: Option<Seq<T>>) -> Option<Seq<T>> {
    match rest {
        Some(r) => Some(items + r),
        None => None,
    }
}

/// Putting one more item behind the prefix is the same as putting it in front of the rest.
pub proof fn lemma_prefixed_push<T>(items: Seq<T>, item: T, rest: Option<Seq<T>>)
    ensures
        prefixed(items.push(item), rest) == prefixed(items, prefixed(seq![item], rest)),
{
    match rest {
        Some(r) => {
            assert(items.push(item) + r =~= items + (seq![item] + r));
        },
        None => {},
    }
}

/// Nothing in front changes nothing.
pub proof fn lemma_prefixed_empty<T>(rest: Option<Seq<T>>)
    ensures
        prefixed(Seq::<T>::empty(), rest) == rest,
{
    match rest {
        Some(r) => {
            assert(Seq::<T>::empty() + r =~= r);
        },
        None => {},
    }
}

/// `n` bytes hold a value below 256 to the `n`.
pub proof fn lemma_le_bound(b: Seq<u8>, at: int, n: nat)
    ensures
        le(b, at, n) < radix(n),
    decreases n,
{
    if n > 0 {
        lemma_le_bound(b, at + 1, (n - 1) as nat);
    }
}

pub proof fn lemma_radix_values()
    ensures
        radix(0) == 1,
        radix(1) == 0x100,
        radix(2) == 0x1_0000,
        radix(3) == 0x100_0000,
        radix(4) == 0x1_0000_0000,
        radix(5) == 0x100_0000_0000,
        radix(6) == 0x1_0000_0000_0000,
        radix(7) == 0x100_0000_0000_0000,
        radix(8) == 0x1_0000_0000_0000_0000,
{
    reveal_with_fuel(radix, 9);
}

/// The bytes before and after the value do not matter.
pub proof fn lemma_le_subrange(b: Seq<u8>, from: int, to: int, at: int, n: nat)
    requires
        0 <= from <= to <= b.len(),
        0 <= at,
        at + n <= to - from,
    ensures
        le(b.subrange(from, to), at, n) == le(b, from + at, n),
    decreases n,
{
    if n > 0 {
        lemma_le_subrange(b, from, to, at + 1, (n - 1) as nat);
    }
}

/// The value of `n` bytes, at most eight.
pub fn read_le(bytes: &[u8], at: usize, n: usize) -> (r: u64)
    requires
        n <= 8,
        at + n <= bytes@.len(),
    ensures
        r == le(bytes@, at as int, n as nat),
        r < radix(n as nat),
{
    let len: usize = bytes.len();
    let mut i: usize = n;
    let mut acc: u64 = 0;
    proof {
        lemma_radix_values();
    }
    while i > 0
        invariant
            i <= n <= 8,
            at + n <= len,
            len == bytes@.len(),
            acc == le(bytes@, at + i, (n - i) as nat),
        decreases i,
    {
        proof {
            lemma_le_bound(bytes@, at + i, (n - i) as nat);
            lemma_radix_values();
        }
        i -= 1;
        acc = acc * 256 + bytes[at + i] as u64;
    }
    proof {
        lemma_le_bound(bytes@, at as int, n as nat);
    }
    acc
}

/// The 16-bit value at `offset`.
pub fn read_u16_at(bytes: &[u8], offset: usize, ref_no: u64) -> (r: Result<u16, MftError>)
    ensures
        match r {
            Ok(v) => offset + 2 <= bytes@.len() && v == le(bytes@, offset as int, 2),
            Err(e) => offset + 2 > bytes@.len() && e == (MftError::BadRecord { ref_no }),
        },
{
    if bytes.len() < 2 || offset > bytes.len() - 2 {
        return Err(MftError::BadRecord { ref_no });
    }
    proof {
        lemma_radix_values();
    }
    Ok(read_le(bytes, offset, 2) as u16)
}

/// The 32-bit value at `offset`.
pub fn read_u32_at(bytes: &[u8], offset: usize, ref_no: u64) -> (r: Result<u32, MftError>)
    ensures
        match r {
            Ok(v) => offset + 4 <= bytes@.len() && v == le(bytes@, offset as int, 4),
            Err(e) => offset + 4 > bytes@.len() && e == (MftError::BadRecord { ref_no }),
        },
{
    if bytes.len() < 4 || offset > bytes.len() - 4 {
        return Err(MftError::BadRecord { ref_no });
    }
    proof {
        lemma_radix_values();
    }
    Ok(read_le(bytes, offset, 4) as u32)
}

/// The 64-bit value at `offset`.
pub fn read_u64_at(bytes: &[u8], offset: usize, ref_no: u64) -> (r: Result<u64, MftError>)
    ensures
        match r {
            Ok(v) => offset + 8 <= bytes@.len() && v == le(bytes@, offset as int, 8),
            Err(e) => offset + 8 > bytes@.len() && e == (MftError::BadRecord { ref_no }),
        },
{
    if bytes.len() < 8 || offset > bytes.len() - 8 {
        return Err(MftError::BadRecord { ref_no });
    }
    Ok(read_le(bytes, offset, 8))
}

/// The text of the `name_len_utf16` UTF-16 code units at `name_offset`.
pub fn decode_attr_name(
    attr_bytes: &[u8],
    name_offset: usize,
    name_len_utf16: usize,
    record_no: u64,
) -> (r: Result<String, MftError>)
    ensures
        match r {
            Ok(s) => name_offset + 2 * name_len_utf16 <= attr_bytes@.len() && s@ == utf16_lossy(
                units(attr_bytes@, name_offset as int, name_len_utf16 as nat),
            ),
            Err(e) => name_offset + 2 * name_len_utf16 > attr_bytes@.len() && e
                == (MftError::BadRecord { ref_no: record_no }),
        },
{
    let len: usize = attr_bytes.len();
    if name_offset > len || name_len_utf16 > (len - name_offset) / 2 {
        return Err(MftError::BadRecord { ref_no: record_no });
    }
    let mut out: Vec<u16> = Vec::new();
    let mut i: usize = 0;
    while i < name_len_utf16
        invariant
            i <= name_len_utf16,
            name_offset + 2 * name_len_utf16 <= len,
            len == attr_bytes@.len(),
            out@ =~= units(attr_bytes@, name_offset as int, i as nat),
        decreases name_len_utf16 - i,
    {
        let v = read_le(attr_bytes, name_offset + 2 * i, 2);
        proof {
            lemma_radix_values();
        }
        out.push(v as u16);
        i += 1;
    }
    Ok(from_utf16_lossy(out.as_slice()))
}

} // verus!
