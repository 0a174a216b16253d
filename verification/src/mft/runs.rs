//! Data runs: where the clusters of a non-resident attribute lie.

use super::bytes::{
    le, lemma_le_bound, lemma_prefixed_empty, lemma_prefixed_push, lemma_radix_values, prefixed, radix,
    read_le, signed,
};
use super::types::{DataRun, MftError};
use vstd::prelude::*;

verus! {

/// Whether `v` is a value of type `i64`.
pub open spec fn fits_i64(v: int) -> bool {
    i64::MIN <= v <= i64::MAX
}

/// The runs encoded in `b` from byte `pos` on, where `prev` is the end of the
/// last allocated run; nothing where the encoding is broken.
///
/// A run is a head byte (low half: size of the length field, high half: size
/// of the offset field), the length, and the signed distance of its first
/// cluster from `prev`. Without an offset field the run is sparse. A zero head
/// byte ends the list.
pub open spec fn runs_from(b: Seq<u8>, pos: int, prev: int) -> Option<Seq<DataRun>>
    decreases b.len() - pos,
{
    if pos >= b.len() || b[pos] == 0 {
        Some(Seq::empty())
    } else {
        let n = (b[pos] % 16) as nat;
        let m = (b[pos] / 16) as nat;
        let next = pos + 1 + n + m;
        if n == 0 || n > 8 || m > 8 || next > b.len() {
            None
        } else {
            let length = le(b, pos + 1, n);
            if m == 0 {
                prefixed(
                    seq![DataRun { start_lcn: 0, length_clusters: length as u64 }],
                    runs_from(b, next, prev),
                )
            } else {
                let start = prev + signed(le(b, pos + 1 + n, m), m);
                let end = start + signed(length, 8);
                if !fits_i64(start) || !fits_i64(end) {
                    None
                } else {
                    prefixed(
                        seq![DataRun { start_lcn: start as i64, length_clusters: length as u64 }],
                        runs_from(b, next, end),
                    )
                }
            }
        }
    }
}

/// Reads an `off_size`-byte two's complement value.
pub fn sign_extend(value: u64, off_size: usize) -> (r: i64)
    requires
        0 < off_size <= 8,
        value < radix(off_size as nat),
    ensures
        r == signed(value as nat, off_size as nat),
{
    proof {
        lemma_radix_values();
    }
    if off_size == 8 {
        if value >= 0x8000_0000_0000_0000 {
            return -((u64::MAX - value) as i64) - 1;
        }
        return value as i64;
    }
    let full: u64 = if off_size == 1 {
        0x100
    } else if off_size == 2 {
        0x1_0000
    } else if off_size == 3 {
        0x100_0000
    } else if off_size == 4 {
        0x1_0000_0000
    } else if off_size == 5 {
        0x100_0000_0000
    } else if off_size == 6 {
        0x1_0000_0000_0000
    } else {
        0x100_0000_0000_0000
    };
    if value >= full / 2 {
        value as i64 - full as i64
    } else {
        value as i64
    }
}

/// Decodes a run list. Clusters are absolute in the result.
pub fn decode_data_runs(bytes: &[u8]) -> (r: Result<Vec<DataRun>, MftError>)
    ensures
        match r {
            Ok(runs) => runs_from(bytes@, 0, 0) == Some(runs@),
            Err(e) => runs_from(bytes@, 0, 0) is None && e == (MftError::BadRecord { ref_no: 0 }),
        },
{
    let mut runs: Vec<DataRun> = Vec::new();
    let mut pos: usize = 0;
    let mut prev_end_lcn: i64 = 0;
    proof {
        lemma_prefixed_empty(runs_from(bytes@, 0, 0));
    }
    while pos < bytes.len() && bytes[pos] != 0
        invariant
            pos <= bytes@.len(),
            prefixed(runs@, runs_from(bytes@, pos as int, prev_end_lcn as int)) == runs_from(
                bytes@,
                0,
                0,
            ),
        decreases bytes@.len() - pos,
    {
        let header: u8 = bytes[pos];
        let len_size: usize = (header % 16) as usize;
        let off_size: usize = (header / 16) as usize;
        let ghost rest = runs_from(bytes@, pos as int, prev_end_lcn as int);
        let ghost done = runs@;
        let left: usize = bytes.len() - pos - 1;
        if len_size == 0 || len_size > 8 || off_size > 8 || len_size + off_size > left {
            return Err(MftError::BadRecord { ref_no: 0 });
        }
        let length_clusters: u64 = read_le(bytes, pos + 1, len_size);
        proof {
            lemma_le_bound(bytes@, pos + 1, len_size as nat);
            lemma_radix_values();
        }
        if off_size == 0 {
            let run = DataRun { start_lcn: 0, length_clusters };
            runs.push(run);
            pos = pos + 1 + len_size;
            proof {
                lemma_prefixed_push(done, run, runs_from(bytes@, pos as int, prev_end_lcn as int));
            }
        } else {
            let offset_raw: u64 = read_le(bytes, pos + 1 + len_size, off_size);
            let signed_offset: i64 = sign_extend(offset_raw, off_size);
            let start_lcn: i64 = match prev_end_lcn.checked_add(signed_offset) {
                Some(v) => v,
                None => {
                    return Err(MftError::BadRecord { ref_no: 0 });
                },
            };
            let end_lcn: i64 = match start_lcn.checked_add(sign_extend(length_clusters, 8)) {
                Some(v) => v,
                None => {
                    return Err(MftError::BadRecord { ref_no: 0 });
                },
            };
            let run = DataRun { start_lcn, length_clusters };
            runs.push(run);
            prev_end_lcn = end_lcn;
            pos = pos + 1 + len_size + off_size;
            proof {
                lemma_prefixed_push(done, run, runs_from(bytes@, pos as int, prev_end_lcn as int));
            }
        }
    }
    assert(runs@ + Seq::<DataRun>::empty() =~= runs@);
    Ok(runs)
}

} // verus!
