//! Update sequence protection of file records.
//!
//! On disk the last two bytes of every sector of a record are replaced by the
//! update sequence number; the bytes that belong there are kept in the update
//! sequence array, behind that number.

use super::bytes::{le, lemma_radix_values, read_le};
use super::types::MftError;
use vstd::prelude::*;
use vstd::slice::slice_to_vec;

verus! {

/// What a file record starts with: `FILE`.
pub const FILE_SIGNATURE: [u8; 4] = [0x46, 0x49, 0x4C, 0x45];

/// Where the offset of the update sequence array is stored.
pub const FILE_USA_OFFSET_OFFSET: usize = 0x04;

/// Where the number of entries of the array, the number itself included, is stored.
pub const FILE_USA_COUNT_OFFSET: usize = 0x06;

/// Bytes up to the end of the field that holds the used length.
pub const FILE_HEADER_MIN_LEN: usize = 0x1C;

/// The record starts with `FILE` and is long enough for its fixed header.
pub open spec fn minimal_valid(b: Seq<u8>) -> bool {
    &&& b.len() >= FILE_HEADER_MIN_LEN
    &&& forall|i: int| 0 <= i < 4 ==> #[trigger] b[i] == FILE_SIGNATURE@[i]
}

/// Offset of the update sequence array.
pub open spec fn usa_offset(b: Seq<u8>) -> nat {
    le(b, FILE_USA_OFFSET_OFFSET as int, 2)
}

/// Entry `i` of the update sequence array; entry 0 is the number itself.
pub open spec fn usa_entry(b: Seq<u8>, i: int) -> nat {
    le(b, usa_offset(b) + 2 * i, 2)
}

/// The last two bytes of sector `i`, counted from 1.
pub open spec fn sector_tail(b: Seq<u8>, bps: int, i: int) -> nat {
    le(b, i * bps - 2, 2)
}

/// The record is a whole number of sectors, and its array has one entry for
/// each of them and lies inside the record.
pub open spec fn usa_geometry(b: Seq<u8>, bps: int) -> bool {
    &&& minimal_valid(b)
    &&& bps > 0
    &&& b.len() % (bps as nat) == 0
    &&& le(b, FILE_USA_COUNT_OFFSET as int, 2) == b.len() / (bps as nat) + 1
    &&& usa_offset(b) + 2 * (b.len() / (bps as nat) + 1) <= b.len()
}

/// Every sector still ends in the update sequence number.
pub open spec fn all_protected(b: Seq<u8>, bps: int) -> bool {
    forall|i: int|
        1 <= i <= b.len() / (bps as nat) ==> #[trigger] sector_tail(b, bps, i) == usa_entry(b, 0)
}

/// Every sector ends in the bytes that belong there, and none in the number.
pub open spec fn all_restored(b: Seq<u8>, bps: int) -> bool {
    forall|i: int|
        1 <= i <= b.len() / (bps as nat) ==> {
            &&& #[trigger] sector_tail(b, bps, i) != usa_entry(b, 0)
            &&& sector_tail(b, bps, i) == usa_entry(b, i)
        }
}

/// `b` with two bytes replaced.
pub open spec fn with_pair(b: Seq<u8>, at: int, lo: u8, hi: u8) -> Seq<u8> {
    b.update(at, lo).update(at + 1, hi)
}

/// `b` after the tails of its first `n` sectors were filled from the array at
/// `usa`, one after the other.
pub open spec fn restore_sectors(b: Seq<u8>, bps: int, usa: int, n: nat) -> Seq<u8>
    decreases n,
{
    if n == 0 {
        b
    } else {
        let p = restore_sectors(b, bps, usa, (n - 1) as nat);
        with_pair(p, n * bps - 2, p[usa + 2 * n], p[usa + 2 * n + 1])
    }
}

/// The record with its sector tails put back; nothing where the protection
/// shows damage.
pub open spec fn usa_fixup(b: Seq<u8>, bps: int) -> Option<Seq<u8>> {
    if !usa_geometry(b, bps) || bps < 2 {
        None
    } else if all_protected(b, bps) {
        Some(restore_sectors(b, bps, usa_offset(b) as int, b.len() / (bps as nat)))
    } else if all_restored(b, bps) {
        Some(b)
    } else {
        None
    }
}

/// The replacement entries are all zero: the mark of a record that the system
/// handed out already repaired.
pub open spec fn ioctl_fixed(b: Seq<u8>, bps: int) -> bool {
    &&& usa_geometry(b, bps)
    &&& forall|j: int|
        usa_offset(b) + 2 <= j < usa_offset(b) + 2 * (b.len() / (bps as nat) + 1) ==> b[j] == 0
}

/// The bytes to parse: the repaired record, or the record itself where the
/// system repaired it; nothing where it is damaged.
pub open spec fn usable_bytes(b: Seq<u8>, bps: int) -> Option<Seq<u8>> {
    match usa_fixup(b, bps) {
        Some(f) => Some(f),
        None => if ioctl_fixed(b, bps) {
            Some(b)
        } else {
            None
        },
    }
}

/// Restoring changes no length.
pub proof fn lemma_restore_len(b: Seq<u8>, bps: int, usa: int, n: nat)
    requires
        bps >= 2,
        n * bps <= b.len(),
    ensures
        restore_sectors(b, bps, usa, n).len() == b.len(),
    decreases n,
{
    if n > 0 {
        assert((n - 1) * bps == n * bps - bps) by (nonlinear_arith);
        assert(n * bps >= bps) by (nonlinear_arith)
            requires
                n >= 1,
                bps >= 2,
        ;
        lemma_restore_len(b, bps, usa, (n - 1) as nat);
    }
}

/// The signature and the length of the fixed header are in order.
pub fn is_minimal_valid_record(bytes: &[u8]) -> (r: bool)
    ensures
        r == minimal_valid(bytes@),
{
    if bytes.len() < FILE_HEADER_MIN_LEN {
        return false;
    }
    let mut i: usize = 0;
    while i < 4
        invariant
            i <= 4,
            bytes@.len() >= FILE_HEADER_MIN_LEN,
            forall|j: int| 0 <= j < i ==> #[trigger] bytes@[j] == FILE_SIGNATURE@[j],
        decreases 4 - i,
    {
        if bytes[i] != FILE_SIGNATURE[i] {
            return false;
        }
        i += 1;
    }
    true
}

/// Checks the geometry of the update sequence array and returns its offset and
/// the number of sectors.
fn check_geometry(bytes: &[u8], bytes_per_sector: u32) -> (r: Option<(usize, usize)>)
    ensures
        match r {
            Some((off, sectors)) => {
                &&& usa_geometry(bytes@, bytes_per_sector as int)
                &&& off == usa_offset(bytes@)
                &&& sectors == bytes@.len() / (bytes_per_sector as nat)
                &&& sectors < 0xFFFF
                &&& sectors > 0
                &&& sectors * bytes_per_sector == bytes@.len()
            },
            None => !usa_geometry(bytes@, bytes_per_sector as int),
        },
{
    if !is_minimal_valid_record(bytes) || bytes_per_sector == 0 {
        return None;
    }
    let record_len: usize = bytes.len();
    let bps: usize = bytes_per_sector as usize;
    let off: usize = read_le(bytes, FILE_USA_OFFSET_OFFSET, 2) as usize;
    let count: usize = read_le(bytes, FILE_USA_COUNT_OFFSET, 2) as usize;
    proof {
        lemma_radix_values();
    }
    if record_len % bps != 0 || count == 0 || count - 1 != record_len / bps || off + 2 * count
        > record_len {
        return None;
    }
    let ghost q = record_len as int / bps as int;
    proof {
        vstd::arithmetic::div_mod::lemma_fundamental_div_mod(record_len as int, bps as int);
        assert(bps as int * q == q * bps as int) by (nonlinear_arith);
        assert(q > 0) by (nonlinear_arith)
            requires
                q * bps as int == record_len,
                record_len >= 0x1C,
                bps > 0,
        ;
    }
    Some((off, count - 1))
}

/// Puts the sector tails of a record back, on a copy.
pub fn apply_usa_fixup(bytes: &[u8], record_no: u64, bytes_per_sector: u32) -> (r: Result<
    Vec<u8>,
    MftError,
>)
    ensures
        match r {
            Ok(v) => usa_fixup(bytes@, bytes_per_sector as int) == Some(v@),
            Err(e) => usa_fixup(bytes@, bytes_per_sector as int) is None && e == (
            MftError::BadRecord { ref_no: record_no }),
        },
{
    let (usa, sectors) = match check_geometry(bytes, bytes_per_sector) {
        Some(p) => p,
        None => {
            return Err(MftError::BadRecord { ref_no: record_no });
        },
    };
    if bytes_per_sector < 2 {
        return Err(MftError::BadRecord { ref_no: record_no });
    }
    let bps: usize = bytes_per_sector as usize;
    let len: usize = bytes.len();
    let usn: u64 = read_le(bytes, usa, 2);
    let mut protected: bool = true;
    let mut restored: bool = true;
    let mut i: usize = 1;
    let mut tail: usize = bps - 2;
    while i <= sectors
        invariant
            1 <= i <= sectors + 1,
            2 <= bps,
            bps == bytes_per_sector,
            len == bytes@.len(),
            sectors * bps == len,
            sectors < 0xFFFF,
            sectors == bytes@.len() / (bps as nat),
            usa == usa_offset(bytes@),
            usa + 2 * (sectors + 1) <= len,
            usn == usa_entry(bytes@, 0),
            i <= sectors ==> tail == i * bps - 2,
            protected == (forall|k: int|
                1 <= k < i ==> #[trigger] sector_tail(bytes@, bps as int, k) == usa_entry(
                    bytes@,
                    0,
                )),
            restored == (forall|k: int|
                1 <= k < i ==> {
                    &&& #[trigger] sector_tail(bytes@, bps as int, k) != usa_entry(bytes@, 0)
                    &&& sector_tail(bytes@, bps as int, k) == usa_entry(bytes@, k)
                }),
        decreases sectors + 1 - i,
    {
        proof {
            assert(i * bps <= sectors * bps) by (nonlinear_arith)
                requires
                    i <= sectors,
            ;
            assert((i + 1) * bps == i * bps + bps) by (nonlinear_arith);
            assert(i + 1 <= sectors ==> (i + 1) * bps <= sectors * bps) by (nonlinear_arith);
        }
        let original: u64 = read_le(bytes, tail, 2);
        let fixup_value: u64 = read_le(bytes, usa + 2 * i, 2);
        assert(original == sector_tail(bytes@, bps as int, i as int));
        assert(fixup_value == usa_entry(bytes@, i as int));
        if original != usn {
            protected = false;
        }
        if original == usn || original != fixup_value {
            restored = false;
        }
        i += 1;
        if i <= sectors {
            tail = tail + bps;
        }
    }
    if !protected && !restored {
        return Err(MftError::BadRecord { ref_no: record_no });
    }
    let mut out: Vec<u8> = slice_to_vec(bytes);
    if !protected {
        return Ok(out);
    }
    let mut n: usize = 0;
    while n < sectors
        invariant
            n <= sectors,
            2 <= bps,
            len == bytes@.len(),
            sectors * bps == len,
            sectors < 0xFFFF,
            usa + 2 * (sectors + 1) <= len,
            out@ == restore_sectors(bytes@, bps as int, usa as int, n as nat),
            out@.len() == len,
        decreases sectors - n,
    {
        n += 1;
        proof {
            assert(n * bps <= sectors * bps) by (nonlinear_arith)
                requires
                    n <= sectors,
            ;
            assert(n * bps >= bps) by (nonlinear_arith)
                requires
                    n >= 1,
            ;
        }
        let at: usize = n * bps - 2;
        let lo: u8 = out[usa + 2 * n];
        let hi: u8 = out[usa + 2 * n + 1];
        out.set(at, lo);
        out.set(at + 1, hi);
    }
    Ok(out)
}

/// Whether the record is one that the system repaired before handing it out.
pub fn is_ioctl_fixed_record(bytes: &[u8], bytes_per_sector: u32) -> (r: bool)
    ensures
        r == ioctl_fixed(bytes@, bytes_per_sector as int),
{
    let (usa, sectors) = match check_geometry(bytes, bytes_per_sector) {
        Some(p) => p,
        None => {
            return false;
        },
    };
    let len: usize = bytes.len();
    let end: usize = usa + 2 * (sectors + 1);
    let mut j: usize = usa + 2;
    while j < end
        invariant
            usa + 2 <= j <= end,
            end <= bytes@.len(),
            usa == usa_offset(bytes@),
            end == usa_offset(bytes@) + 2 * (bytes@.len() / (bytes_per_sector as nat) + 1),
            usa_geometry(bytes@, bytes_per_sector as int),
            forall|k: int| usa + 2 <= k < j ==> bytes@[k] == 0,
        decreases end - j,
    {
        if bytes[j] != 0 {
            return false;
        }
        j += 1;
    }
    true
}

/// The bytes to parse: the repaired copy, or the bytes as they are where the
/// system repaired them.
pub fn usable_record(bytes: &[u8], record_no: u64, bytes_per_sector: u32) -> (r: Result<
    Vec<u8>,
    MftError,
>)
    ensures
        match r {
            Ok(v) => usable_bytes(bytes@, bytes_per_sector as int) == Some(v@) && v@.len()
                == bytes@.len() && v@.len() >= FILE_HEADER_MIN_LEN,
            Err(e) => usable_bytes(bytes@, bytes_per_sector as int) is None && e == (
            MftError::BadRecord { ref_no: record_no }),
        },
{
    match apply_usa_fixup(bytes, record_no, bytes_per_sector) {
        Ok(v) => {
            proof {
                vstd::arithmetic::div_mod::lemma_fundamental_div_mod(
                    bytes@.len() as int,
                    bytes_per_sector as int,
                );
                assert((bytes@.len() / (bytes_per_sector as nat)) * bytes_per_sector
                    == bytes_per_sector * (bytes@.len() / (bytes_per_sector as nat)))
                    by (nonlinear_arith);
                lemma_restore_len(
                    bytes@,
                    bytes_per_sector as int,
                    usa_offset(bytes@) as int,
                    bytes@.len() / (bytes_per_sector as nat),
                );
            }
            Ok(v)
        },
        Err(e) => {
            if is_ioctl_fixed_record(bytes, bytes_per_sector) {
                Ok(slice_to_vec(bytes))
            } else {
                Err(e)
            }
        },
    }
}

// ---------------------------------------------------------------------------
// Laws
// ---------------------------------------------------------------------------

/// Byte `j` is one of the last two of sector `i`.
pub open spec fn in_tail(bps: int, i: int, j: int) -> bool {
    i * bps - 2 <= j < i * bps
}

/// No sector of the record ends inside the update sequence array.
pub open spec fn array_apart(b: Seq<u8>, bps: int) -> bool {
    forall|i: int, j: int|
        1 <= i <= b.len() / (bps as nat) && usa_offset(b) <= j < usa_offset(b) + 2 * (b.len() / (
        bps as nat) + 1) ==> !#[trigger] in_tail(bps, i, j)
}

/// `p` is the record `b` as it lies on disk: the number `lo`, `hi` stands at
/// the head of the array and at the end of every sector, and the array keeps
/// the bytes that belong there.
pub open spec fn protects(p: Seq<u8>, b: Seq<u8>, bps: int, lo: u8, hi: u8) -> bool {
    let n = b.len() / (bps as nat);
    let off = usa_offset(b) as int;
    &&& p.len() == b.len()
    &&& p[off] == lo && p[off + 1] == hi
    &&& forall|i: int|
        1 <= i <= n ==> {
            &&& #[trigger] p[i * bps - 2] == lo
            &&& p[i * bps - 1] == hi
            &&& p[off + 2 * i] == b[i * bps - 2]
            &&& p[off + 2 * i + 1] == b[i * bps - 1]
        }
    &&& forall|j: int|
        0 <= j < b.len() && !(off <= j < off + 2 * (n + 1)) && !is_tail(bps, n, j)
            ==> #[trigger] p[j] == b[j]
}

/// Byte `j` is one of the last two of one of the first `n` sectors.
pub open spec fn is_tail(bps: int, n: nat, j: int) -> bool {
    exists|i: int| 1 <= i <= n && #[trigger] in_tail(bps, i, j)
}

/// Two sectors do not share a tail.
proof fn lemma_tails_apart(bps: int, i: int, k: int, j: int)
    requires
        bps >= 2,
        in_tail(bps, i, j),
        in_tail(bps, k, j),
    ensures
        i == k,
{
    if i < k {
        assert(i * bps <= (k - 1) * bps) by (nonlinear_arith)
            requires
                i <= k - 1,
                bps >= 2,
        ;
        assert((k - 1) * bps == k * bps - bps) by (nonlinear_arith);
    } else if k < i {
        assert(k * bps <= (i - 1) * bps) by (nonlinear_arith)
            requires
                k <= i - 1,
                bps >= 2,
        ;
        assert((i - 1) * bps == i * bps - bps) by (nonlinear_arith);
    }
}

/// Where a sector ends.
proof fn lemma_tail_place(len: nat, bps: int, n: nat, i: int)
    requires
        bps >= 2,
        1 <= i <= n,
        n * bps <= len,
    ensures
        0 <= i * bps - 2,
        i * bps <= len,
{
    assert(i * bps >= bps) by (nonlinear_arith)
        requires
            i >= 1,
            bps >= 2,
    ;
    assert(i * bps <= n * bps) by (nonlinear_arith)
        requires
            i <= n,
            bps >= 2,
    ;
}

/// What restoring does to each byte, where the array lies apart from the tails.
proof fn lemma_restore_bytes(b: Seq<u8>, bps: int, usa: int, n: nat, total: nat)
    requires
        bps >= 2,
        n <= total,
        total * bps <= b.len(),
        usa >= 0,
        usa + 2 * (total + 1) <= b.len(),
        forall|i: int, j: int|
            1 <= i <= total && usa <= j < usa + 2 * (total + 1) ==> !#[trigger] in_tail(bps, i, j),
    ensures
        restore_sectors(b, bps, usa, n).len() == b.len(),
        forall|i: int|
            1 <= i <= n ==> #[trigger] restore_sectors(b, bps, usa, n)[i * bps - 2] == b[usa + 2
                * i] && restore_sectors(b, bps, usa, n)[i * bps - 1] == b[usa + 2 * i + 1],
        forall|j: int|
            0 <= j < b.len() && !is_tail(bps, n, j) ==> #[trigger] restore_sectors(
                b,
                bps,
                usa,
                n,
            )[j] == b[j],
    decreases n,
{
    assert(n * bps <= total * bps) by (nonlinear_arith)
        requires
            n <= total,
            bps >= 2,
    ;
    lemma_restore_len(b, bps, usa, n);
    if n > 0 {
        let m = (n - 1) as nat;
        lemma_restore_bytes(b, bps, usa, m, total);
        let p = restore_sectors(b, bps, usa, m);
        let r = restore_sectors(b, bps, usa, n);
        lemma_tail_place(b.len(), bps, total, n as int);
        assert(!is_tail(bps, m, usa + 2 * n)) by {
            if is_tail(bps, m, usa + 2 * n) {
                let i = choose|i: int| 1 <= i <= m && #[trigger] in_tail(bps, i, usa + 2 * n);
                assert(!in_tail(bps, i, usa + 2 * n));
            }
        }
        assert(!is_tail(bps, m, usa + 2 * n + 1)) by {
            if is_tail(bps, m, usa + 2 * n + 1) {
                let i = choose|i: int| 1 <= i <= m && #[trigger] in_tail(bps, i, usa + 2 * n + 1);
                assert(!in_tail(bps, i, usa + 2 * n + 1));
            }
        }
        assert(p[usa + 2 * n] == b[usa + 2 * n]);
        assert(p[usa + 2 * n + 1] == b[usa + 2 * n + 1]);
        assert forall|i: int| 1 <= i <= n implies #[trigger] r[i * bps - 2] == b[usa + 2 * i]
            && r[i * bps - 1] == b[usa + 2 * i + 1] by {
            if i < n {
                lemma_tail_place(b.len(), bps, total, i);
                if in_tail(bps, n as int, i * bps - 2) {
                    assert(in_tail(bps, i, i * bps - 2));
                    lemma_tails_apart(bps, n as int, i, i * bps - 2);
                }
                if in_tail(bps, n as int, i * bps - 1) {
                    assert(in_tail(bps, i, i * bps - 1));
                    lemma_tails_apart(bps, n as int, i, i * bps - 1);
                }
                assert(p[i * bps - 2] == b[usa + 2 * i]);
            }
        }
        assert forall|j: int| 0 <= j < b.len() && !is_tail(bps, n, j) implies #[trigger] r[j]
            == b[j] by {
            assert(!in_tail(bps, n as int, j));
            if is_tail(bps, m, j) {
                let i = choose|i: int| 1 <= i <= m && #[trigger] in_tail(bps, i, j);
                assert(1 <= i <= n && in_tail(bps, i, j));
            }
        }
    }
}

/// Two bytes that are the same make the same number.
proof fn lemma_pair(a: Seq<u8>, x: int, b: Seq<u8>, y: int)
    requires
        a[x] == b[y],
        a[x + 1] == b[y + 1],
    ensures
        le(a, x, 2) == le(b, y, 2),
{
    reveal_with_fuel(le, 3);
}

/// Repairing a record gives back what lay in its sectors before the number
/// was written over their ends: it differs from the record only inside the array.
pub proof fn law_fixup_undoes_protection(p: Seq<u8>, b: Seq<u8>, bps: int, lo: u8, hi: u8)
    requires
        bps >= 2,
        usa_geometry(b, bps),
        usa_offset(b) >= 8,
        array_apart(b, bps),
        protects(p, b, bps, lo, hi),
    ensures
        usa_fixup(p, bps) is Some,
        usa_fixup(p, bps)->0.len() == b.len(),
        forall|j: int|
            0 <= j < b.len() && !(usa_offset(b) <= j < usa_offset(b) + 2 * (b.len() / (bps as nat)
                + 1)) ==> #[trigger] usa_fixup(p, bps)->0[j] == b[j],
{
    let n = b.len() / (bps as nat);
    let off = usa_offset(b) as int;
    lemma_sector_size(b, bps);
    assert(n * bps <= b.len()) by (nonlinear_arith)
        requires
            n == b.len() / (bps as nat),
            bps >= 2,
    ;
    assert(n >= 1) by (nonlinear_arith)
        requires
            n == b.len() / (bps as nat),
            b.len() % (bps as nat) == 0,
            b.len() >= 28,
            bps >= 2,
    ;
    assert forall|j: int| 0 <= j < 8 implies p[j] == b[j] by {
        if is_tail(bps, n, j) {
            let i = choose|i: int| 1 <= i <= n && #[trigger] in_tail(bps, i, j);
            assert(i * bps >= bps) by (nonlinear_arith)
                requires
                    i >= 1,
                    bps >= 2,
            ;
        }
    }
    lemma_pair(p, FILE_USA_OFFSET_OFFSET as int, b, FILE_USA_OFFSET_OFFSET as int);
    lemma_pair(p, FILE_USA_COUNT_OFFSET as int, b, FILE_USA_COUNT_OFFSET as int);
    assert(usa_offset(p) == off);
    assert(usa_geometry(p, bps));
    assert(all_protected(p, bps)) by {
        assert forall|i: int| 1 <= i <= n implies #[trigger] sector_tail(p, bps, i) == usa_entry(
            p,
            0,
        ) by {
            assert(p[i * bps - 2] == lo);
            lemma_pair(p, i * bps - 2, p, off);
        }
    }
    let f = restore_sectors(p, bps, off, n);
    assert(usa_fixup(p, bps) == Some(f));
    lemma_restore_bytes(p, bps, off, n, n);
    assert forall|j: int|
        0 <= j < b.len() && !(off <= j < off + 2 * (n + 1)) implies #[trigger] f[j] == b[j] by {
        if is_tail(bps, n, j) {
            let i = choose|i: int| 1 <= i <= n && #[trigger] in_tail(bps, i, j);
            assert(f[i * bps - 2] == p[off + 2 * i]);
            assert(p[i * bps - 2] == lo);
            assert(j == i * bps - 2 || j == i * bps - 1);
        } else {
            assert(f[j] == p[j]);
        }
    }
}

/// Shorter sectors would leave no room for the array.
proof fn lemma_sector_size(b: Seq<u8>, bps: int)
    requires
        bps >= 2,
        usa_geometry(b, bps),
        array_apart(b, bps),
    ensures
        bps >= 10,
{
    let n = b.len() / (bps as nat);
    let off = usa_offset(b) as int;
    if bps < 10 {
        assert(n * bps == b.len()) by (nonlinear_arith)
            requires
                n == b.len() / (bps as nat),
                b.len() % (bps as nat) == 0,
                bps >= 2,
        ;
        assert(n >= 4) by (nonlinear_arith)
            requires
                n * bps >= 28,
                2 <= bps < 10,
        ;
        let i = off / bps + 1;
        assert(off < i * bps <= off + bps && i >= 1) by (nonlinear_arith)
            requires
                i == off / bps + 1,
                bps >= 2,
                off >= 0,
        ;
        assert(i <= n) by (nonlinear_arith)
            requires
                i * bps <= off + bps,
                off + 10 <= n * bps,
                2 <= bps < 10,
        ;
        assert(in_tail(bps, i, i * bps - 1));
    }
}

/// A damaged record is refused: where some sectors end in the number and
/// others do not, and the system did not repair the record, it is not parsed.
pub proof fn law_torn_record_is_refused(b: Seq<u8>, bps: int, i: int, k: int)
    requires
        1 <= i <= b.len() / (bps as nat),
        1 <= k <= b.len() / (bps as nat),
        sector_tail(b, bps, i) == usa_entry(b, 0),
        sector_tail(b, bps, k) != usa_entry(b, 0),
        !ioctl_fixed(b, bps),
    ensures
        usable_bytes(b, bps) is None,
{
}

/// A repaired record passes unchanged, as long as no sector happens to end in
/// the number.
pub proof fn law_repaired_record_is_kept(b: Seq<u8>, bps: int)
    requires
        bps >= 2,
        usa_geometry(b, bps),
        array_apart(b, bps),
        all_protected(b, bps),
        forall|i: int|
            1 <= i <= b.len() / (bps as nat) ==> #[trigger] usa_entry(b, i) != usa_entry(b, 0),
    ensures
        usa_fixup(b, bps) matches Some(f) && usa_fixup(f, bps) == Some(f),
{
    let n = b.len() / (bps as nat);
    let off = usa_offset(b) as int;
    lemma_sector_size(b, bps);
    assert(n * bps == b.len()) by (nonlinear_arith)
        requires
            n == b.len() / (bps as nat),
            b.len() % (bps as nat) == 0,
            bps >= 2,
    ;
    assert(n >= 1) by (nonlinear_arith)
        requires
            n * bps >= 28,
    ;
    let f = restore_sectors(b, bps, off, n);
    lemma_restore_bytes(b, bps, off, n, n);
    assert forall|j: int| 0 <= j < 8 || off <= j < off + 2 * (n + 1) implies #[trigger] f[j]
        == b[j] by {
        if is_tail(bps, n, j) {
            let i = choose|i: int| 1 <= i <= n && #[trigger] in_tail(bps, i, j);
            assert(i * bps >= bps) by (nonlinear_arith)
                requires
                    i >= 1,
                    bps >= 2,
            ;
        }
    }
    lemma_pair(f, FILE_USA_OFFSET_OFFSET as int, b, FILE_USA_OFFSET_OFFSET as int);
    lemma_pair(f, FILE_USA_COUNT_OFFSET as int, b, FILE_USA_COUNT_OFFSET as int);
    assert(usa_geometry(f, bps));
    assert forall|i: int| 1 <= i <= n implies {
        &&& #[trigger] sector_tail(f, bps, i) != usa_entry(f, 0)
        &&& sector_tail(f, bps, i) == usa_entry(f, i)
    } by {
        assert(f[i * bps - 2] == b[off + 2 * i]);
        lemma_pair(f, i * bps - 2, b, off + 2 * i);
        lemma_pair(f, off + 2 * i, b, off + 2 * i);
        lemma_pair(f, off, b, off);
        assert(usa_entry(b, i) != usa_entry(b, 0));
    }
    assert(all_restored(f, bps));
    assert(sector_tail(f, bps, 1) != usa_entry(f, 0));
    assert(!all_protected(f, bps));
}

} // verus!
