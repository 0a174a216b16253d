//! Where the records of a volume lie: the list of runs, the bytes that are gathered
//! from them, and the records in these bytes.

use crate::mft::bytes::{le, lemma_radix_values, radix, signed};
use crate::mft::reader::{load_step, record_slice, run_fault, zeros, LoadState, LoadStep};
use crate::mft::runs::runs_from;
use crate::mft::types::{DataRun, MftError};
use crate::win32::VolumeData;
use vstd::prelude::*;

verus! {

// ---------------------------------------------------------------------------
// The list of runs
// ---------------------------------------------------------------------------

/// The `n` bytes at `at` spell the number, the low byte first.
pub open spec fn spells(b: Seq<u8>, at: int, n: nat, v: nat) -> bool
    decreases n,
{
    if n == 0 {
        v == 0
    } else {
        0 <= at < b.len() && b[at] == v % 256 && spells(b, at + 1, (n - 1) as nat, v / 256)
    }
}

/// 256 to the power `n`.
pub open spec fn power(n: nat) -> nat
    decreases n,
{
    if n == 0 {
        1
    } else {
        256 * power((n - 1) as nat)
    }
}

/// The `n` bytes at `at` spell the number as one that may be negative.
pub open spec fn spells_signed(b: Seq<u8>, at: int, n: nat, v: int) -> bool {
    if v >= 0 {
        2 * v < power(n) && spells(b, at, n, v as nat)
    } else {
        2 * v >= -(power(n) as int) && spells(b, at, n, (v + power(n)) as nat)
    }
}

proof fn lemma_spells(b: Seq<u8>, at: int, n: nat, v: nat)
    requires
        spells(b, at, n, v),
    ensures
        le(b, at, n) == v,
    decreases n,
{
    if n > 0 {
        lemma_spells(b, at + 1, (n - 1) as nat, v / 256);
    }
}

proof fn lemma_power(n: nat)
    ensures
        power(n) == radix(n),
        power(n) > 0,
    decreases n,
{
    if n > 0 {
        lemma_power((n - 1) as nat);
    }
}

proof fn lemma_spells_signed(b: Seq<u8>, at: int, n: nat, v: int)
    requires
        spells_signed(b, at, n, v),
    ensures
        signed(le(b, at, n), n) == v,
{
    lemma_power(n);
    if v >= 0 {
        lemma_spells(b, at, n, v as nat);
    } else {
        lemma_spells(b, at, n, (v + power(n)) as nat);
    }
}

/// The run stands at `pos`: a head byte with the sizes of the two numbers, its length
/// in `n` bytes, and in `m` bytes how far its first cluster is from `prev`. A run without
/// the second number is sparse.
pub open spec fn is_run_at(b: Seq<u8>, pos: int, prev: int, run: DataRun, n: nat, m: nat) -> bool {
    &&& 0 <= pos
    &&& 1 <= n <= 8 && m <= 8
    &&& pos + 1 + n + m <= b.len()
    &&& b[pos] == n + 16 * m
    &&& spells(b, pos + 1, n, run.length_clusters as nat)
    &&& run.length_clusters <= i64::MAX
    &&& if m == 0 {
        run.start_lcn == 0
    } else {
        &&& spells_signed(b, pos + 1 + n, m, run.start_lcn - prev)
        &&& run.start_lcn + run.length_clusters <= i64::MAX
    }
}

/// The runs stand one behind the other from `pos` on, and then the list ends. Each
/// place counts from the end of the last run that is not sparse, at first from `prev`.
pub open spec fn are_runs_from(b: Seq<u8>, pos: int, prev: int, runs: Seq<DataRun>) -> bool
    decreases runs.len(),
{
    if runs.len() == 0 {
        pos >= b.len() || b[pos] == 0
    } else {
        exists|n: nat, m: nat| #[trigger]
            is_run_at(b, pos, prev, runs[0], n, m) && are_runs_from(
                b,
                pos + 1 + n + m,
                if m == 0 {
                    prev
                } else {
                    runs[0].start_lcn + runs[0].length_clusters
                },
                runs.drop_first(),
            )
    }
}

/// The runs that are written down are the runs that are read.
pub proof fn law_runs_are_read_as_written(b: Seq<u8>, pos: int, prev: int, runs: Seq<DataRun>)
    requires
        0 <= pos,
        are_runs_from(b, pos, prev, runs),
    ensures
        runs_from(b, pos, prev) == Some(runs),
    decreases runs.len(),
{
    if runs.len() == 0 {
        assert(runs =~= Seq::empty());
    } else {
        let run = runs[0];
        let (n, m) = choose|n: nat, m: nat| #[trigger]
            is_run_at(b, pos, prev, run, n, m) && are_runs_from(
                b,
                pos + 1 + n + m,
                if m == 0 {
                    prev
                } else {
                    run.start_lcn + run.length_clusters
                },
                runs.drop_first(),
            );
        let head = b[pos];
        assert(head % 16 == n && head / 16 == m);
        assert(head != 0);
        lemma_spells(b, pos + 1, n, run.length_clusters as nat);
        lemma_radix_values();
        let next = pos + 1 + n + m;
        if m == 0 {
            law_runs_are_read_as_written(b, next, prev, runs.drop_first());
        } else {
            lemma_spells_signed(b, pos + 1 + n, m, run.start_lcn - prev);
            assert(signed(run.length_clusters as nat, 8) == run.length_clusters);
            law_runs_are_read_as_written(
                b,
                next,
                run.start_lcn + run.length_clusters,
                runs.drop_first(),
            );
        }
        assert(seq![run] + runs.drop_first() =~= runs);
    }
}

// ---------------------------------------------------------------------------
// Gathering the bytes
// ---------------------------------------------------------------------------

/// What lies on the volume: `len` bytes from `offset` on.
pub type Disk = spec_fn(int, int) -> Seq<u8>;

/// What the runs hold, one behind the other: zeros for a sparse run, else what lies on
/// the volume at the place of its first cluster.
pub open spec fn contents(runs: Seq<DataRun>, per_cluster: int, disk: Disk) -> Seq<u8>
    decreases runs.len(),
{
    if runs.len() == 0 {
        Seq::empty()
    } else {
        let run = runs[0];
        let size = run.length_clusters * per_cluster;
        (if run.start_lcn == 0 {
            Seq::new(size as nat, |i: int| 0u8)
        } else {
            disk(run.start_lcn * per_cluster, size)
        }) + contents(runs.drop_first(), per_cluster, disk)
    }
}

/// The loading on its way: what is asked for is read from the volume and supplied.
pub open spec fn gather(s: LoadState, v: VolumeData, disk: Disk, k: nat) -> Option<Seq<u8>>
    decreases k,
{
    let (step, t) = load_step(s, v);
    match step {
        Err(_) => None,
        Ok(LoadStep::Done) => Some(t.bytes),
        Ok(LoadStep::Read { offset, len }) => if k == 0 {
            None
        } else {
            gather(
                LoadState {
                    runs: t.runs.drop_first(),
                    bytes: t.bytes + disk(offset as int, len as int),
                },
                v,
                disk,
                (k - 1) as nat,
            )
        },
    }
}

/// The runs fit the volume: each starts inside it, and together they are not longer
/// than what is valid.
pub open spec fn fit(runs: Seq<DataRun>, before: int, v: VolumeData) -> bool
    decreases runs.len(),
{
    if runs.len() == 0 {
        true
    } else {
        let size = runs[0].length_clusters * v.bytes_per_cluster;
        &&& runs[0].start_lcn >= 0
        &&& runs[0].start_lcn * v.bytes_per_cluster <= u64::MAX
        &&& before + size <= v.mft_valid_data_length
        &&& fit(runs.drop_first(), before + size, v)
    }
}

/// Reads give as many bytes as were asked for.
pub open spec fn reads_whole(disk: Disk) -> bool {
    forall|offset: int, len: int| len >= 0 ==> (#[trigger] disk(offset, len)).len() == len
}

/// What is gathered from runs that fit the volume is what the runs hold, one behind
/// the other; sparse runs are not read.
pub proof fn law_gathered_is_what_the_runs_hold(
    s: LoadState,
    v: VolumeData,
    disk: Disk,
    k: nat,
)
    requires
        reads_whole(disk),
        fit(s.runs, s.bytes.len() as int, v),
        k >= s.runs.len(),
    ensures
        gather(s, v, disk, k) == Some(s.bytes + contents(s.runs, v.bytes_per_cluster as int, disk)),
    decreases s.runs.len(),
{
    let per = v.bytes_per_cluster as int;
    if s.runs.len() == 0 {
        assert(s.bytes + contents(s.runs, per, disk) =~= s.bytes);
    } else {
        let run = s.runs[0];
        let size = run.length_clusters * per;
        assert(size >= 0) by (nonlinear_arith)
            requires
                size == run.length_clusters * per,
                per >= 0,
                run.length_clusters >= 0,
        ;
        assert(run.start_lcn * per >= 0) by (nonlinear_arith)
            requires
                per >= 0,
                run.start_lcn >= 0,
        ;
        assert(!run_fault(s, v));
        let rest = s.runs.drop_first();
        if run.start_lcn == 0 {
            let t = LoadState { runs: rest, bytes: s.bytes + zeros(size as nat) };
            law_gathered_is_what_the_runs_hold(t, v, disk, k);
            assert(load_step(s, v) == load_step(t, v));
            assert(zeros(size as nat) =~= Seq::new(size as nat, |i: int| 0u8));
            assert(t.bytes + contents(rest, per, disk) =~= s.bytes + contents(
                s.runs,
                per,
                disk,
            ));
        } else {
            let chunk = disk(run.start_lcn * per, size);
            let t = LoadState { runs: rest, bytes: s.bytes + chunk };
            assert(chunk.len() == size);
            law_gathered_is_what_the_runs_hold(t, v, disk, (k - 1) as nat);
            assert(t.bytes + contents(rest, per, disk) =~= s.bytes + contents(
                s.runs,
                per,
                disk,
            ));
        }
    }
}

/// A run that lies before the volume or is longer than what is valid ends the loading.
pub proof fn law_runs_that_do_not_fit_are_refused(s: LoadState, v: VolumeData)
    requires
        s.runs.len() > 0,
        s.runs[0].start_lcn < 0 || s.bytes.len() + s.runs[0].length_clusters * v.bytes_per_cluster
            > v.mft_valid_data_length,
    ensures
        load_step(s, v).0 == Err::<LoadStep, MftError>(MftError::InvalidVolumeData),
{
}

/// Record `n` is the `n`th piece of the gathered bytes, if it is there as a whole.
pub proof fn law_records_stand_one_behind_the_other(b: Seq<u8>, size: int, n: int, i: int)
    requires
        size > 0,
        n >= 0,
    ensures
        record_slice(b, size, n) is Some <==> n * size + size <= b.len(),
        record_slice(b, size, n) matches Some(r) ==> r.len() == size && (0 <= i < size ==> r[i]
            == b[n * size + i]),
{
    assert((n + 1) * size == n * size + size) by (nonlinear_arith);
    assert(n * size >= 0) by (nonlinear_arith)
        requires
            n >= 0,
            size > 0,
    ;
}

} // verus!
