//! The index over all records of a `$MFT`.

use super::reader::{
    geometry_fault, record_slice, validate_volume_data, MftFileReader, RecordReader,
};
use super::record::{effective_names, parse_record, record_of, select_effective_names};
use super::types::{names_view, MftError, MftName, MftRecord, MftRecordView};
use crate::win32::{RawFileRecord, VolumeData};
use std::collections::HashMap;
use vstd::prelude::*;

verus! {

/// Record number of the root directory.
pub const ROOT_RECORD_NO: u64 = 5;

/// The records of a volume and what was counted while they were read.
#[derive(Debug, Clone)]
pub struct MftIndex {
    /// The base records in use, by record number.
    pub records: HashMap<u64, MftRecord>,
    /// Records that were handed to the parser.
    pub scanned_records: u64,
    /// Records that could not be read or parsed.
    pub skipped_records: u64,
    /// Base records in use that are not directories.
    pub scanned_files: u64,
    /// Long names of files beyond the first.
    pub hard_link_entries: u64,
    /// Extension records in use whose base record is missing.
    pub unresolved_extensions: u64,
}

/// Model of an [`MftIndex`].
pub struct MftIndexView {
    pub records: Map<u64, MftRecordView>,
    pub scanned_records: nat,
    pub skipped_records: nat,
    pub scanned_files: nat,
    pub hard_link_entries: nat,
    pub unresolved_extensions: nat,
}

/// The models of the records in a map.
pub open spec fn records_view(records: Map<u64, MftRecord>) -> Map<u64, MftRecordView> {
    Map::new(|k: u64| records.contains_key(k), |k: u64| records[k]@)
}

impl View for MftIndex {
    type V = MftIndexView;

    open spec fn view(&self) -> MftIndexView {
        MftIndexView {
            records: records_view(self.records@),
            scanned_records: self.scanned_records as nat,
            skipped_records: self.skipped_records as nat,
            scanned_files: self.scanned_files as nat,
            hard_link_entries: self.hard_link_entries as nat,
            unresolved_extensions: self.unresolved_extensions as nat,
        }
    }
}

impl MftIndex {
    /// Every record is filed under its own number.
    pub open spec fn wf(&self) -> bool {
        forall|k: u64|
            #[trigger] self.records@.contains_key(k) ==> self.records@[k].id.record_no == k
    }
}

// ---------------------------------------------------------------------------
// Model of the enumeration
// ---------------------------------------------------------------------------

/// What was found in one slot of the `$MFT`.
pub enum Slot {
    /// The bytes could not be read.
    Unread,
    /// The bytes are no valid record.
    Damaged,
    Record(MftRecordView),
}

/// What slot `n` holds, given its bytes.
pub open spec fn slot_of(raw: Option<Seq<u8>>, n: u64, bps: int) -> Slot {
    match raw {
        None => Slot::Unread,
        Some(b) => match record_of(b, n, bps) {
            None => Slot::Damaged,
            Some(r) => Slot::Record(r),
        },
    }
}

/// The number of slots that the valid part of the `$MFT` covers.
pub open spec fn slot_count(v: VolumeData) -> nat {
    v.mft_valid_data_length as nat / v.bytes_per_file_record_segment as nat
}

/// The bytes that a read gave.
pub open spec fn read_bytes(r: Result<RawFileRecord, MftError>) -> Option<Seq<u8>> {
    match r {
        Ok(raw) => Some(raw.bytes@),
        Err(_) => None,
    }
}

/// Slot `n` holds what a read of record `n` gave.
pub open spec fn was_read<R: RecordReader + ?Sized>(
    reader: &R,
    v: VolumeData,
    slots: Seq<Slot>,
    n: int,
) -> bool {
    exists|r: Result<RawFileRecord, MftError>| #[trigger]
        call_ensures(R::read, (reader, n as u64), r) && slots[n] == slot_of(
            read_bytes(r),
            n as u64,
            v.bytes_per_sector as int,
        )
}

/// The first `n` slots of the volume hold what reads gave.
pub open spec fn slots_read<R: RecordReader + ?Sized>(
    reader: &R,
    v: VolumeData,
    slots: Seq<Slot>,
    n: nat,
) -> bool {
    &&& n <= slots.len()
    &&& slots.len() == slot_count(v)
    &&& forall|i: int| 0 <= i < n ==> #[trigger] was_read(reader, v, slots, i)
}

/// How many of the first `n` slots were parsed, successfully or not.
pub open spec fn scanned(slots: Seq<Slot>, n: nat) -> nat
    decreases n,
{
    if n == 0 {
        0
    } else {
        scanned(slots, (n - 1) as nat) + if slots[n - 1] is Unread {
            0nat
        } else {
            1nat
        }
    }
}

/// How many of the first `n` slots gave no record.
pub open spec fn skipped(slots: Seq<Slot>, n: nat) -> nat
    decreases n,
{
    if n == 0 {
        0
    } else {
        skipped(slots, (n - 1) as nat) + if slots[n - 1] is Record {
            0nat
        } else {
            1nat
        }
    }
}

/// More than a hundred of the first `n` slots gave no record, and these are
/// more than one in a hundred of the parsed ones.
pub open spec fn too_many_skipped(slots: Seq<Slot>, n: nat) -> bool {
    skipped(slots, n) > 100 && skipped(slots, n) * 100 > scanned(slots, n)
}

/// The slot holds a base record in use.
pub open spec fn is_base(s: Slot) -> bool {
    s matches Slot::Record(r) && r.in_use && r.base_record is None
}

/// The slot holds an extension record in use.
pub open spec fn is_extension(s: Slot) -> bool {
    s matches Slot::Record(r) && r.in_use && r.base_record is Some
}

/// The slot holds an extension in use of base record `b`.
pub open spec fn extends(s: Slot, b: int) -> bool {
    s matches Slot::Record(r) && r.in_use && r.base_record is Some && r.base_record->0.record_no
        == b
}

/// Sum of the sizes of the extensions of `b` among the first `n` slots.
pub open spec fn extension_size(slots: Seq<Slot>, b: int, n: nat) -> nat
    decreases n,
{
    if n == 0 {
        0
    } else {
        extension_size(slots, b, (n - 1) as nat) + if extends(slots[n - 1], b) {
            slots[n - 1]->Record_0.logical_size as nat
        } else {
            0
        }
    }
}

/// Number of the extensions of `b` among the first `n` slots.
pub open spec fn extension_count(slots: Seq<Slot>, b: int, n: nat) -> nat
    decreases n,
{
    if n == 0 {
        0
    } else {
        extension_count(slots, b, (n - 1) as nat) + if extends(slots[n - 1], b) {
            1nat
        } else {
            0nat
        }
    }
}

/// The size of base record `b` together with its extensions among the first `n` slots.
pub open spec fn merged_size(slots: Seq<Slot>, b: int, n: nat) -> nat {
    slots[b]->Record_0.logical_size as nat + extension_size(slots, b, n)
}

/// Base record `b` with the size of its extensions among the first `n` slots added.
pub open spec fn merged_record(slots: Seq<Slot>, b: int, n: nat) -> MftRecordView {
    MftRecordView { logical_size: merged_size(slots, b, n) as u64, ..slots[b]->Record_0 }
}

/// The base records among the first `n` slots.
pub open spec fn merged_records(slots: Seq<Slot>, n: nat) -> Map<u64, MftRecordView> {
    Map::new(
        |k: u64| k < n && is_base(slots[k as int]),
        |k: u64| merged_record(slots, k as int, n),
    )
}

/// Extensions among the first `n` slots without a base record among the first `m`.
pub open spec fn unresolved(slots: Seq<Slot>, n: nat, m: nat) -> nat
    decreases n,
{
    if n == 0 {
        0
    } else {
        unresolved(slots, (n - 1) as nat, m) + if is_extension(slots[n - 1]) && !has_base(
            slots,
            slots[n - 1],
            m,
        ) {
            1nat
        } else {
            0nat
        }
    }
}

/// The base record of the extension `s` is among the first `m` slots.
pub open spec fn has_base(slots: Seq<Slot>, s: Slot, m: nat) -> bool {
    let b = s->Record_0.base_record->0.record_no;
    b < m && is_base(slots[b as int])
}

/// The error, if any, that slot `n` brings: too many unusable slots, or a size
/// beyond 64 bits where it meets its base record or its extensions.
pub open spec fn slot_fault(slots: Seq<Slot>, n: nat) -> Option<MftError> {
    let s = slots[n as int];
    if !(s is Record) {
        if too_many_skipped(slots, n + 1) {
            Some(
                MftError::ExcessiveRecordErrors {
                    skipped: skipped(slots, n + 1) as u64,
                    scanned: scanned(slots, n + 1) as u64,
                },
            )
        } else {
            None
        }
    } else if is_base(s) {
        if merged_size(slots, n as int, n) > u64::MAX {
            Some(MftError::BadRecord { ref_no: n as u64 })
        } else {
            None
        }
    } else if is_extension(s) && has_base(slots, s, n) {
        let b = s->Record_0.base_record->0.record_no;
        if merged_size(slots, b as int, n + 1) > u64::MAX {
            Some(MftError::BadRecord { ref_no: b })
        } else {
            None
        }
    } else {
        None
    }
}

/// The error that the first of the first `n` slots brings that brings one.
pub open spec fn first_fault(slots: Seq<Slot>, n: nat) -> Option<MftError>
    decreases n,
{
    if n == 0 {
        None
    } else if first_fault(slots, (n - 1) as nat) is Some {
        first_fault(slots, (n - 1) as nat)
    } else {
        slot_fault(slots, (n - 1) as nat)
    }
}

/// The record is a file in use.
pub open spec fn is_file(r: MftRecordView) -> bool {
    r.in_use && !r.is_dir
}

/// The names beyond the first under which the record is filed.
pub open spec fn extra_links(r: MftRecordView) -> nat {
    let names = effective_names(r.names);
    if names.len() > 1 {
        (names.len() - 1) as nat
    } else {
        0
    }
}

/// Number of files among the records below `n`.
pub open spec fn file_total(records: Map<u64, MftRecordView>, n: nat) -> nat
    decreases n,
{
    if n == 0 {
        0
    } else {
        file_total(records, (n - 1) as nat) + if records.contains_key((n - 1) as u64) && is_file(
            records[(n - 1) as u64],
        ) {
            1nat
        } else {
            0nat
        }
    }
}

/// Sum of the extra links of the files among the records below `n`.
pub open spec fn link_total(records: Map<u64, MftRecordView>, n: nat) -> nat
    decreases n,
{
    if n == 0 {
        0
    } else {
        link_total(records, (n - 1) as nat) + if records.contains_key((n - 1) as u64) && is_file(
            records[(n - 1) as u64],
        ) {
            extra_links(records[(n - 1) as u64])
        } else {
            0
        }
    }
}

/// The value, or the largest 64-bit value where it exceeds it.
pub open spec fn sat64(n: nat) -> nat {
    if n > u64::MAX {
        u64::MAX as nat
    } else {
        n
    }
}

/// The index over the slots.
pub open spec fn index_of(slots: Seq<Slot>) -> MftIndexView {
    let n = slots.len();
    let records = merged_records(slots, n);
    MftIndexView {
        records,
        scanned_records: scanned(slots, n),
        skipped_records: skipped(slots, n),
        scanned_files: file_total(records, n),
        hard_link_entries: sat64(link_total(records, n)),
        unresolved_extensions: unresolved(slots, n, n),
    }
}

/// The outcome of an enumeration that nobody cancels.
pub open spec fn enumeration(slots: Seq<Slot>) -> Result<MftIndexView, MftError> {
    match first_fault(slots, slots.len()) {
        Some(e) => Err(e),
        None => if ROOT_RECORD_NO < slots.len() && is_base(slots[ROOT_RECORD_NO as int]) {
            Ok(index_of(slots))
        } else {
            Err(MftError::RootRecordMissing)
        },
    }
}

/// The first `n` slots are enough to know that the enumeration fails with `e`.
pub open spec fn fails_by(slots: Seq<Slot>, n: nat, e: MftError) -> bool {
    first_fault(slots, n) == Some(e) || (n == slots.len() && enumeration(slots) == Err::<
        MftIndexView,
        MftError,
    >(e))
}

// ---------------------------------------------------------------------------
// Lemmas
// ---------------------------------------------------------------------------

proof fn lemma_counts_bound(slots: Seq<Slot>, n: nat)
    ensures
        scanned(slots, n) <= n,
        skipped(slots, n) <= n,
    decreases n,
{
    if n > 0 {
        lemma_counts_bound(slots, (n - 1) as nat);
    }
}

proof fn lemma_first_fault_prefix(slots: Seq<Slot>, n: nat, m: nat)
    requires
        n <= m,
        first_fault(slots, n) is Some,
    ensures
        first_fault(slots, m) == first_fault(slots, n),
    decreases m,
{
    if n < m {
        lemma_first_fault_prefix(slots, n, (m - 1) as nat);
    }
}

proof fn lemma_extension_size_bound(slots: Seq<Slot>, b: int, n: nat)
    ensures
        extension_size(slots, b, n) <= n * u64::MAX,
        extension_count(slots, b, n) <= n,
    decreases n,
{
    if n > 0 {
        lemma_extension_size_bound(slots, b, (n - 1) as nat);
        assert(n * u64::MAX == (n - 1) * u64::MAX + u64::MAX) by (nonlinear_arith);
    }
}

proof fn lemma_unresolved_bound(slots: Seq<Slot>, n: nat, m: nat)
    ensures
        unresolved(slots, n, m) <= n,
    decreases n,
{
    if n > 0 {
        lemma_unresolved_bound(slots, (n - 1) as nat, m);
    }
}

/// What is known of the first `n` slots depends on these alone.
proof fn lemma_same_prefix(a: Seq<Slot>, b: Seq<Slot>, n: nat)
    requires
        n <= a.len(),
        a.len() == b.len(),
        forall|i: int| 0 <= i < n ==> #[trigger] a[i] == b[i],
    ensures
        scanned(a, n) == scanned(b, n),
        skipped(a, n) == skipped(b, n),
        first_fault(a, n) == first_fault(b, n),
        unresolved(a, n, n) == unresolved(b, n, n),
        merged_records(a, n) =~= merged_records(b, n),
        sizes_fit(a, n) == sizes_fit(b, n),
    decreases n,
{
    lemma_same_counts(a, b, n);
    lemma_same_unresolved(a, b, n, n);
    assert forall|k: int| 0 <= k implies extension_size(a, k, n) == extension_size(b, k, n) by {
        lemma_same_extensions(a, b, k, n);
    }
    assert forall|k: int| 0 <= k < n implies #[trigger] merged_size(a, k, n) == merged_size(
        b,
        k,
        n,
    ) by {
        assert(a[k] == b[k]);
    }
    assert forall|k: u64| k < n implies is_base(a[k as int]) == is_base(b[k as int]) by {
        assert(a[k as int] == b[k as int]);
    }
    if sizes_fit(a, n) {
        assert forall|k: int|
            #![trigger merged_size(b, k, n)]
            0 <= k < n && is_base(b[k]) implies merged_size(b, k, n) <= u64::MAX by {
            assert(a[k] == b[k]);
            assert(merged_size(a, k, n) == merged_size(b, k, n));
        }
    }
    if sizes_fit(b, n) {
        assert forall|k: int|
            #![trigger merged_size(a, k, n)]
            0 <= k < n && is_base(a[k]) implies merged_size(a, k, n) <= u64::MAX by {
            assert(a[k] == b[k]);
            assert(merged_size(a, k, n) == merged_size(b, k, n));
        }
    }
    if n > 0 {
        let m = (n - 1) as nat;
        lemma_same_prefix(a, b, m);
        assert(a[m as int] == b[m as int]);
        lemma_same_fault(a, b, m);
    }
}

proof fn lemma_same_counts(a: Seq<Slot>, b: Seq<Slot>, n: nat)
    requires
        forall|i: int| 0 <= i < n ==> #[trigger] a[i] == b[i],
    ensures
        scanned(a, n) == scanned(b, n),
        skipped(a, n) == skipped(b, n),
    decreases n,
{
    if n > 0 {
        lemma_same_counts(a, b, (n - 1) as nat);
        assert(a[n - 1] == b[n - 1]);
    }
}

proof fn lemma_same_extensions(a: Seq<Slot>, b: Seq<Slot>, k: int, n: nat)
    requires
        forall|i: int| 0 <= i < n ==> #[trigger] a[i] == b[i],
    ensures
        extension_size(a, k, n) == extension_size(b, k, n),
        extension_count(a, k, n) == extension_count(b, k, n),
    decreases n,
{
    if n > 0 {
        lemma_same_extensions(a, b, k, (n - 1) as nat);
        assert(a[n - 1] == b[n - 1]);
    }
}

proof fn lemma_same_unresolved(a: Seq<Slot>, b: Seq<Slot>, n: nat, m: nat)
    requires
        n <= m,
        forall|i: int| 0 <= i < m ==> #[trigger] a[i] == b[i],
    ensures
        unresolved(a, n, m) == unresolved(b, n, m),
    decreases n,
{
    if n > 0 {
        lemma_same_unresolved(a, b, (n - 1) as nat, m);
        assert(a[n - 1] == b[n - 1]);
        let base = a[n - 1]->Record_0.base_record->0.record_no;
        if base < m {
            assert(a[base as int] == b[base as int]);
        }
    }
}

proof fn lemma_same_fault(a: Seq<Slot>, b: Seq<Slot>, n: nat)
    requires
        n < a.len(),
        forall|i: int| 0 <= i <= n ==> #[trigger] a[i] == b[i],
    ensures
        slot_fault(a, n) == slot_fault(b, n),
{
    lemma_same_counts(a, b, n + 1);
    assert(a[n as int] == b[n as int]);
    lemma_same_extensions(a, b, n as int, n);
    let base = a[n as int]->Record_0.base_record->0.record_no;
    lemma_same_extensions(a, b, base as int, n + 1);
    if base < n {
        assert(a[base as int] == b[base as int]);
    }
}

proof fn lemma_same_pending_prefix(
    pending: Map<u64, Waiting>,
    a: Seq<Slot>,
    b: Seq<Slot>,
    n: nat,
)
    requires
        forall|i: int| 0 <= i < n ==> #[trigger] a[i] == b[i],
        pending_ok(pending, a, n),
    ensures
        pending_ok(pending, b, n),
{
    assert forall|k: u64|
        #![trigger pending.contains_key(k)]
        if pending.contains_key(k) {
            !(k < n && is_base(b[k as int])) && pending[k].0 == extension_size(b, k as int, n)
                && pending[k].1 == extension_count(b, k as int, n)
        } else {
            !(k < n && is_base(b[k as int])) ==> extension_size(b, k as int, n) == 0
                && extension_count(b, k as int, n) == 0
        } by {
        lemma_same_extensions(a, b, k as int, n);
        if k < n {
            assert(a[k as int] == b[k as int]);
        }
    }
}

/// A base record in slot `m` resolves its extensions among the first `n` slots.
proof fn lemma_unresolved_step(slots: Seq<Slot>, n: nat, m: nat)
    requires
        m <= u64::MAX,
    ensures
        is_base(slots[m as int]) ==> unresolved(slots, n, m) == unresolved(slots, n, m + 1)
            + extension_count(slots, m as int, n),
        !is_base(slots[m as int]) ==> unresolved(slots, n, m) == unresolved(slots, n, m + 1),
    decreases n,
{
    if n > 0 {
        lemma_unresolved_step(slots, (n - 1) as nat, m);
    }
}

// ---------------------------------------------------------------------------
// Executable
// ---------------------------------------------------------------------------

/// Extensions that wait for their base record: the sum of their sizes and
/// their number.
type Waiting = (u128, u64);

/// The pending extensions agree with the first `n` slots.
spec fn pending_ok(pending: Map<u64, Waiting>, slots: Seq<Slot>, n: nat) -> bool {
    forall|b: u64|
        #![trigger pending.contains_key(b)]
        if pending.contains_key(b) {
            !(b < n && is_base(slots[b as int])) && pending[b].0 == extension_size(
                slots,
                b as int,
                n,
            ) && pending[b].1 == extension_count(slots, b as int, n)
        } else {
            !(b < n && is_base(slots[b as int])) ==> extension_size(slots, b as int, n) == 0
                && extension_count(slots, b as int, n) == 0
        }
}

/// The sizes of the base records among the first `n` slots fit into 64 bits.
spec fn sizes_fit(slots: Seq<Slot>, n: nat) -> bool {
    forall|b: int|
        #![trigger merged_size(slots, b, n)]
        0 <= b < n && is_base(slots[b]) ==> merged_size(slots, b, n) <= u64::MAX
}

/// Adds the extension in slot `n` to its base record, or keeps it until the
/// base record comes.
fn add_extension(
    records: &mut HashMap<u64, MftRecord>,
    pending: &mut HashMap<u64, Waiting>,
    record: &MftRecord,
    base_no: u64,
    Ghost(slots): Ghost<Seq<Slot>>,
    n: u64,
) -> (r: Result<bool, MftError>)
    requires
        n < slots.len() <= u64::MAX,
        slots[n as int] == Slot::Record(record@),
        record.in_use,
        record.base_record is Some && record.base_record->0.record_no == base_no,
        records_view(old(records)@) =~= merged_records(slots, n as nat),
        pending_ok(old(pending)@, slots, n as nat),
        sizes_fit(slots, n as nat),
    ensures
        match r {
            Ok(waits) => {
                &&& slot_fault(slots, n as nat) is None
                &&& waits == !has_base(slots, slots[n as int], n as nat)
                &&& records_view(final(records)@) =~= merged_records(slots, n as nat + 1)
                &&& pending_ok(final(pending)@, slots, n as nat + 1)
                &&& sizes_fit(slots, n as nat + 1)
            },
            Err(e) => slot_fault(slots, n as nat) == Some(e),
        },
{
    let ghost s = slots[n as int];
    let ghost before = merged_records(slots, n as nat);
    assert(before.contains_key(base_no) == has_base(slots, s, n as nat));
    assert(records_view(records@).contains_key(base_no) == records@.contains_key(base_no));
    assert forall|b: u64| b != base_no implies extension_size(slots, b as int, n as nat + 1)
        == extension_size(slots, b as int, n as nat) && extension_count(
        slots,
        b as int,
        n as nat + 1,
    ) == extension_count(slots, b as int, n as nat) by {}
    match records.remove(&base_no) {
        Some(mut base_rec) => {
            let ghost old_rec = base_rec@;
            assert(records_view(old(records)@)[base_no] == old_rec);
            match base_rec.logical_size.checked_add(record.logical_size) {
                Some(sum) => {
                    base_rec.logical_size = sum;
                    records.insert(base_no, base_rec);
                    proof {
                        let after = merged_records(slots, n as nat + 1);
                        assert forall|k: u64| #[trigger]
                            records_view(records@).contains_key(k) == after.contains_key(k) && (
                        after.contains_key(k) ==> records_view(records@)[k] == after[k]) by {
                            assert(before.contains_key(k) == records_view(
                                old(records)@,
                            ).contains_key(k));
                            if k == base_no {
                                assert(records_view(records@)[k] == (MftRecordView {
                                    logical_size: sum,
                                    ..old_rec
                                }));
                                assert(before[k] == old_rec);
                                assert(merged_size(slots, k as int, n as nat + 1) == sum);
                                assert(after[k] == records_view(records@)[k]);
                            } else if before.contains_key(k) {
                                assert(before[k] == records_view(old(records)@)[k]);
                                assert(records_view(records@)[k] == before[k]);
                                assert(after[k] == before[k]);
                            }
                        }
                        assert(records_view(records@) =~= after);
                        assert(pending_ok(pending@, slots, n as nat + 1));
                        assert forall|b: int|
                            #![trigger merged_size(slots, b, n as nat + 1)]
                            0 <= b < n + 1 && is_base(slots[b]) implies merged_size(
                            slots,
                            b,
                            n as nat + 1,
                        ) <= u64::MAX by {
                            assert(merged_size(slots, b, n as nat) <= u64::MAX);
                        }
                    }
                    Ok(false)
                },
                None => Err(MftError::BadRecord { ref_no: base_no }),
            }
        },
        None => {
            proof {
                lemma_extension_size_bound(slots, base_no as int, n as nat);
                lemma_extension_size_bound(slots, base_no as int, n as nat + 1);
                assert((n + 1) * u64::MAX <= 0x1_0000_0000_0000_0000 * u64::MAX)
                    by (nonlinear_arith)
                    requires
                        n <= u64::MAX,
                ;
            }
            let ghost waiting = pending@;
            let (sum, count): Waiting = match pending.remove(&base_no) {
                Some(w) => w,
                None => (0, 0),
            };
            pending.insert(base_no, (sum + record.logical_size as u128, count + 1));
            proof {
                let after = merged_records(slots, n as nat + 1);
                assert(records@ =~= old(records)@);
                assert forall|k: u64| #[trigger]
                    records_view(records@).contains_key(k) == after.contains_key(k) && (
                after.contains_key(k) ==> records_view(records@)[k] == after[k]) by {
                    assert(before.contains_key(k) == records_view(old(records)@).contains_key(k));
                    if before.contains_key(k) {
                        assert(before[k] == records_view(old(records)@)[k]);
                        assert(k != base_no);
                    }
                }
                assert(records_view(records@) =~= after);
                assert forall|b: u64| #![trigger pending@.contains_key(b)]
                    b != base_no implies pending@.contains_key(b) == waiting.contains_key(b) && (
                waiting.contains_key(b) ==> pending@[b] == waiting[b]) by {}
                assert(pending_ok(pending@, slots, n as nat + 1));
                assert forall|b: int|
                    #![trigger merged_size(slots, b, n as nat + 1)]
                    0 <= b < n + 1 && is_base(slots[b]) implies merged_size(
                    slots,
                    b,
                    n as nat + 1,
                ) <= u64::MAX by {
                    assert(merged_size(slots, b, n as nat) <= u64::MAX);
                }
            }
            Ok(true)
        },
    }
}

/// Files the base record in slot `n`, with the extensions that waited for it.
/// Returns how many these were.
fn add_base(
    records: &mut HashMap<u64, MftRecord>,
    pending: &mut HashMap<u64, Waiting>,
    record: MftRecord,
    Ghost(slots): Ghost<Seq<Slot>>,
    n: u64,
) -> (r: Result<u64, MftError>)
    requires
        n < slots.len() <= u64::MAX,
        slots[n as int] == Slot::Record(record@),
        record.in_use,
        record.base_record is None,
        record.id.record_no == n,
        records_view(old(records)@) =~= merged_records(slots, n as nat),
        pending_ok(old(pending)@, slots, n as nat),
        sizes_fit(slots, n as nat),
    ensures
        match r {
            Ok(count) => {
                &&& slot_fault(slots, n as nat) is None
                &&& count == extension_count(slots, n as int, n as nat)
                &&& records_view(final(records)@) =~= merged_records(slots, n as nat + 1)
                &&& pending_ok(final(pending)@, slots, n as nat + 1)
                &&& sizes_fit(slots, n as nat + 1)
            },
            Err(e) => slot_fault(slots, n as nat) == Some(e),
        },
{
    let mut merged: MftRecord = record;
    let ghost before = merged_records(slots, n as nat);
    let ghost waiting = pending@;
    assert forall|b: int| extension_size(slots, b, n as nat + 1) == extension_size(
        slots,
        b,
        n as nat,
    ) && extension_count(slots, b, n as nat + 1) == extension_count(slots, b, n as nat) by {}
    let (sum, count): Waiting = match pending.remove(&n) {
        Some(w) => w,
        None => (0, 0),
    };
    assert(!before.contains_key(n));
    assert(sum == extension_size(slots, n as int, n as nat)) by {
        assert(waiting.contains_key(n) || !waiting.contains_key(n));
    }
    proof {
        lemma_extension_size_bound(slots, n as int, n as nat);
        assert(n * u64::MAX <= 0xFFFF_FFFF_FFFF_FFFF * u64::MAX) by (nonlinear_arith)
            requires
                n <= u64::MAX,
        ;
    }
    let total: u128 = merged.logical_size as u128 + sum;
    if total > u64::MAX as u128 {
        return Err(MftError::BadRecord { ref_no: n });
    }
    merged.logical_size = total as u64;
    records.insert(n, merged);
    proof {
        let after = merged_records(slots, n as nat + 1);
        assert forall|k: u64| #[trigger]
            records_view(records@).contains_key(k) == after.contains_key(k) && (after.contains_key(
            k,
        ) ==> records_view(records@)[k] == after[k]) by {
            assert(before.contains_key(k) == records_view(old(records)@).contains_key(k));
            if k != n && before.contains_key(k) {
                assert(before[k] == records_view(old(records)@)[k]);
            }
        }
        assert(records_view(records@) =~= after);
        assert forall|b: u64| #![trigger pending@.contains_key(b)]
            b != n implies pending@.contains_key(b) == waiting.contains_key(b) && (
        waiting.contains_key(b) ==> pending@[b] == waiting[b]) by {}
        assert(pending_ok(pending@, slots, n as nat + 1));
        assert forall|b: int|
            #![trigger merged_size(slots, b, n as nat + 1)]
            0 <= b < n + 1 && is_base(slots[b]) implies merged_size(slots, b, n as nat + 1)
            <= u64::MAX by {
            assert(b < n ==> merged_size(slots, b, n as nat) <= u64::MAX);
        }
    }
    Ok(count)
}

/// The names beyond the first under which the record is filed.
fn count_extra_links(names: &Vec<MftName>, Ghost(r): Ghost<MftRecordView>) -> (n: usize)
    requires
        r.names == names_view(names@),
    ensures
        n == extra_links(r),
{
    let effective: Vec<MftName> = select_effective_names(names.as_slice());
    assert(names_view(effective@) == effective_names(r.names));
    if effective.len() > 1 {
        effective.len() - 1
    } else {
        0
    }
}

/// Reads all records and builds the index. `cancel` is asked before each
/// record, and once more, before `progress` is called, at every 4096th.
pub fn enumerate_mft<R: RecordReader + ?Sized, C: Fn() -> bool, P: Fn(u64)>(
    reader: &R,
    volume_data: VolumeData,
    cancel: &C,
    progress: &P,
) -> (r: Result<MftIndex, MftError>)
    requires
        call_requires(*cancel, ()),
        forall|n: u64| call_requires(*progress, (n,)),
    ensures
        match geometry_fault(volume_data) {
            Some(fault) => r is Err && r->Err_0 == fault,
            None => match r {
                Ok(index) => index.wf() && exists|slots: Seq<Slot>|
                    slots_read(reader, volume_data, slots, slots.len())
                        && #[trigger] enumeration(slots) == Ok::<MftIndexView, MftError>(index@),
                Err(e) => if e is Cancelled {
                    slot_count(volume_data) > 0 && call_ensures(*cancel, (), true)
                } else {
                    exists|slots: Seq<Slot>, n: nat| #[trigger]
                        slots_read(reader, volume_data, slots, n) && fails_by(slots, n, e)
                },
            },
        },
        geometry_fault(volume_data) is None && slot_count(volume_data) > 0 && !call_ensures(
            *cancel,
            (),
            false,
        ) ==> r is Err && r->Err_0 is Cancelled,
{
    match validate_volume_data(&volume_data) {
        Ok(()) => {},
        Err(e) => {
            return Err(e);
        },
    }
    let record_size: u64 = volume_data.bytes_per_file_record_segment as u64;
    let record_count: u64 = volume_data.mft_valid_data_length / record_size;
    let bytes_per_sector: u32 = volume_data.bytes_per_sector;
    let ghost mut slots = Seq::new(record_count as nat, |i: int| Slot::Unread);
    let mut records: HashMap<u64, MftRecord> = HashMap::new();
    let mut pending: HashMap<u64, Waiting> = HashMap::new();
    let mut scanned_records: u64 = 0;
    let mut skipped_records: u64 = 0;
    let mut waiting: u64 = 0;
    assert(records_view(records@) =~= merged_records(slots, 0));
    let mut n: u64 = 0;
    while n < record_count
        invariant
            call_requires(*cancel, ()),
            forall|n: u64| call_requires(*progress, (n,)),
            n <= record_count,
            n > 0 ==> call_ensures(*cancel, (), false),
            record_count == slot_count(volume_data),
            geometry_fault(volume_data) is None,
            bytes_per_sector == volume_data.bytes_per_sector,
            slots.len() == record_count,
            slots_read(reader, volume_data, slots, n as nat),
            first_fault(slots, n as nat) is None,
            !too_many_skipped(slots, n as nat),
            scanned_records == scanned(slots, n as nat),
            skipped_records == skipped(slots, n as nat),
            waiting == unresolved(slots, n as nat, n as nat),
            records_view(records@) =~= merged_records(slots, n as nat),
            pending_ok(pending@, slots, n as nat),
            sizes_fit(slots, n as nat),
        decreases record_count - n,
    {
        if cancel() {
            return Err(MftError::Cancelled);
        }
        let ghost here = n as nat;
        let reply = reader.read(n);
        proof {
            let before = slots;
            slots = before.update(
                n as int,
                slot_of(read_bytes(reply), n, volume_data.bytes_per_sector as int),
            );
            lemma_same_prefix(before, slots, here);
            lemma_same_pending_prefix(pending@, before, slots, here);
            assert(was_read(reader, volume_data, slots, n as int));
            assert forall|i: int| 0 <= i < here + 1 implies #[trigger] was_read(
                reader,
                volume_data,
                slots,
                i,
            ) by {
                if i < here {
                    assert(was_read(reader, volume_data, before, i));
                }
            }
            assert(slots_read(reader, volume_data, slots, here + 1));
            lemma_counts_bound(slots, here);
            lemma_counts_bound(slots, here + 1);
            lemma_unresolved_bound(slots, here, here);
            lemma_unresolved_bound(slots, here + 1, here);
            lemma_unresolved_bound(slots, here + 1, here + 1);
            lemma_unresolved_step(slots, here + 1, here);
        }
        let parse: Option<MftRecord> = match reply {
            Ok(raw) => {
                scanned_records += 1;
                match parse_record(raw.bytes.as_slice(), n, bytes_per_sector) {
                    Ok(rec) => Some(rec),
                    Err(_) => None,
                }
            },
            Err(_) => None,
        };
        match parse {
            None => {
                skipped_records += 1;
                if skipped_records > 100 && (skipped_records > u64::MAX / 100 || skipped_records
                    * 100 > scanned_records) {
                    return Err(
                        MftError::ExcessiveRecordErrors {
                            skipped: skipped_records,
                            scanned: scanned_records,
                        },
                    );
                }
                proof {
                    lemma_same_records(slots, here);
                    lemma_same_pending(pending@, slots, here);
                }
            },
            Some(record) => {
                assert(slots[n as int] == Slot::Record(record@));
                if (n + 1) % 4096 == 0 {
                    if cancel() {
                        return Err(MftError::Cancelled);
                    }
                    progress(scanned_records);
                }
                if record.in_use {
                    match record.base_record {
                        Some(base) => {
                            match add_extension(
                                &mut records,
                                &mut pending,
                                &record,
                                base.record_no,
                                Ghost(slots),
                                n,
                            ) {
                                Ok(waits) => {
                                    if waits {
                                        waiting += 1;
                                    }
                                },
                                Err(e) => {
                                    return Err(e);
                                },
                            }
                        },
                        None => {
                            assert(record@.id.record_no == n);
                            match add_base(&mut records, &mut pending, record, Ghost(slots), n) {
                                Ok(count) => {
                                    waiting -= count;
                                },
                                Err(e) => {
                                    return Err(e);
                                },
                            }
                        },
                    }
                } else {
                    proof {
                        lemma_same_records(slots, here);
                        lemma_same_pending(pending@, slots, here);
                    }
                }
            },
        }
        n += 1;
    }
    assert(records_view(records@).contains_key(ROOT_RECORD_NO) == records@.contains_key(
        ROOT_RECORD_NO,
    ));
    if !records.contains_key(&ROOT_RECORD_NO) {
        return Err(MftError::RootRecordMissing);
    }
    let ghost all = records_view(records@);
    let mut scanned_files: u64 = 0;
    let mut hard_link_entries: u64 = 0;
    let mut k: u64 = 0;
    while k < record_count
        invariant
            k <= record_count,
            all == records_view(records@),
            scanned_files == file_total(all, k as nat),
            scanned_files <= k,
            hard_link_entries == sat64(link_total(all, k as nat)),
        decreases record_count - k,
    {
        assert(all.contains_key(k) == records@.contains_key(k));
        match records.get(&k) {
            Some(rec) => {
                assert(all[k] == rec@);
                if !rec.is_dir && rec.in_use {
                    let extra: usize = count_extra_links(&rec.names, Ghost(rec@));
                    hard_link_entries = hard_link_entries.saturating_add(extra as u64);
                    scanned_files += 1;
                }
            },
            None => {},
        }
        k += 1;
    }
    let index = MftIndex {
        records,
        scanned_records,
        skipped_records,
        scanned_files,
        hard_link_entries,
        unresolved_extensions: waiting,
    };
    proof {
        assert(all =~= merged_records(slots, slots.len()));
        assert forall|k: u64| #[trigger] index.records@.contains_key(k) implies index.records@[k].id.record_no
            == k by {
            assert(all.contains_key(k) && all[k] == index.records@[k]@);
            assert(was_read(reader, volume_data, slots, k as int));
        }
        assert(slots_read(reader, volume_data, slots, slots.len()));
        assert(index_of(slots) == index@);
        assert(enumeration(slots) == Ok::<MftIndexView, MftError>(index@));
    }
    Ok(index)
}

/// A slot that is neither a base record nor an extension changes no record.
proof fn lemma_same_records(slots: Seq<Slot>, n: nat)
    requires
        n < slots.len() <= u64::MAX,
        !is_base(slots[n as int]),
        !is_extension(slots[n as int]),
        sizes_fit(slots, n),
    ensures
        merged_records(slots, n + 1) =~= merged_records(slots, n),
        sizes_fit(slots, n + 1),
{
    assert forall|b: int|
        #![trigger merged_size(slots, b, n + 1)]
        0 <= b < n + 1 && is_base(slots[b]) implies merged_size(slots, b, n + 1) <= u64::MAX by {
        assert(merged_size(slots, b, n) <= u64::MAX);
    }
}

/// A slot that is neither a base record nor an extension leaves what waits alone.
proof fn lemma_same_pending(pending: Map<u64, Waiting>, slots: Seq<Slot>, n: nat)
    requires
        n < slots.len() <= u64::MAX,
        !is_base(slots[n as int]),
        !is_extension(slots[n as int]),
        pending_ok(pending, slots, n),
    ensures
        pending_ok(pending, slots, n + 1),
{
    assert forall|b: u64| extension_size(slots, b as int, n + 1) == extension_size(
        slots,
        b as int,
        n,
    ) && extension_count(slots, b as int, n + 1) == extension_count(slots, b as int, n) by {}
}

// ---------------------------------------------------------------------------
// Laws
// ---------------------------------------------------------------------------

/// Exactly the base records in use are indexed: extensions and free records
/// never are.
pub proof fn law_index_holds_the_base_records(slots: Seq<Slot>, k: u64)
    ensures
        index_of(slots).records.contains_key(k) <==> k < slots.len() && is_base(slots[k as int]),
{
}

/// Sum of the sizes of the records in use among the first `n` slots.
pub open spec fn size_in_use(slots: Seq<Slot>, n: nat) -> nat
    decreases n,
{
    if n == 0 {
        0
    } else {
        size_in_use(slots, (n - 1) as nat) + if is_base(slots[n - 1]) || is_extension(slots[n - 1]) {
            slots[n - 1]->Record_0.logical_size as nat
        } else {
            0
        }
    }
}

/// Sum of the sizes of the extensions among the first `n` slots whose base
/// record is missing among the first `m`.
pub open spec fn stray_size(slots: Seq<Slot>, n: nat, m: nat) -> nat
    decreases n,
{
    if n == 0 {
        0
    } else {
        stray_size(slots, (n - 1) as nat, m) + if is_extension(slots[n - 1]) && !has_base(
            slots,
            slots[n - 1],
            m,
        ) {
            slots[n - 1]->Record_0.logical_size as nat
        } else {
            0
        }
    }
}

/// Sum of the sizes of the records below `n`.
pub open spec fn indexed_size(records: Map<u64, MftRecordView>, n: nat) -> nat
    decreases n,
{
    if n == 0 {
        0
    } else {
        indexed_size(records, (n - 1) as nat) + if records.contains_key((n - 1) as u64) {
            records[(n - 1) as u64].logical_size as nat
        } else {
            0
        }
    }
}

/// Sum over the base records among the first `m` slots of their sizes, with
/// their extensions among the first `n`.
spec fn base_size(slots: Seq<Slot>, m: nat, n: nat) -> nat
    decreases m,
{
    if m == 0 {
        0
    } else {
        base_size(slots, (m - 1) as nat, n) + if is_base(slots[m - 1]) {
            merged_size(slots, m - 1, n)
        } else {
            0
        }
    }
}

/// Without a fault no merged size exceeds 64 bits.
proof fn lemma_merged_fits(slots: Seq<Slot>, b: int, n: nat)
    requires
        0 <= b < n <= slots.len() <= u64::MAX,
        is_base(slots[b]),
        first_fault(slots, n) is None,
    ensures
        merged_size(slots, b, n) <= u64::MAX,
    decreases n,
{
    let m = (n - 1) as nat;
    assert(slot_fault(slots, m) is None);
    if b < m {
        lemma_merged_fits(slots, b, m);
        if extends(slots[m as int], b) {
            assert(has_base(slots, slots[m as int], m));
        }
    }
}

/// One more slot adds its size to the base record that it extends, if any.
proof fn lemma_base_size_step(slots: Seq<Slot>, m: nat, n: nat)
    requires
        m <= u64::MAX,
    ensures
        base_size(slots, m, n + 1) == base_size(slots, m, n) + if is_extension(slots[n as int])
            && has_base(slots, slots[n as int], m) {
            slots[n as int]->Record_0.logical_size as nat
        } else {
            0
        },
    decreases m,
{
    if m > 0 {
        lemma_base_size_step(slots, (m - 1) as nat, n);
    }
}

/// Sizes of base records alone.
proof fn lemma_base_size_start(slots: Seq<Slot>, m: nat, n: nat)
    ensures
        n == 0 ==> base_size(slots, m, n) + stray_size(slots, n, m) == own_size(slots, m),
    decreases m,
{
    if m > 0 {
        lemma_base_size_start(slots, (m - 1) as nat, n);
    }
}

/// Sum of the sizes of the base records among the first `m` slots, by themselves.
spec fn own_size(slots: Seq<Slot>, m: nat) -> nat
    decreases m,
{
    if m == 0 {
        0
    } else {
        own_size(slots, (m - 1) as nat) + if is_base(slots[m - 1]) {
            slots[m - 1]->Record_0.logical_size as nat
        } else {
            0
        }
    }
}

/// Sum of the sizes of the extensions among the first `n` slots.
spec fn extra_size(slots: Seq<Slot>, n: nat) -> nat
    decreases n,
{
    if n == 0 {
        0
    } else {
        extra_size(slots, (n - 1) as nat) + if is_extension(slots[n - 1]) {
            slots[n - 1]->Record_0.logical_size as nat
        } else {
            0
        }
    }
}

proof fn lemma_sizes_split(slots: Seq<Slot>, m: nat, n: nat)
    requires
        m <= u64::MAX,
    ensures
        base_size(slots, m, n) + stray_size(slots, n, m) == own_size(slots, m) + extra_size(
            slots,
            n,
        ),
    decreases n,
{
    if n == 0 {
        lemma_base_size_start(slots, m, n);
    } else {
        let k = (n - 1) as nat;
        lemma_sizes_split(slots, m, k);
        lemma_base_size_step(slots, m, k);
    }
}

proof fn lemma_sizes_join(slots: Seq<Slot>, n: nat)
    ensures
        own_size(slots, n) + extra_size(slots, n) == size_in_use(slots, n),
    decreases n,
{
    if n > 0 {
        lemma_sizes_join(slots, (n - 1) as nat);
    }
}

proof fn lemma_indexed_size(slots: Seq<Slot>, m: nat)
    requires
        m <= slots.len() <= u64::MAX,
        first_fault(slots, slots.len()) is None,
    ensures
        indexed_size(merged_records(slots, slots.len()), m) == base_size(slots, m, slots.len()),
    decreases m,
{
    if m > 0 {
        lemma_indexed_size(slots, (m - 1) as nat);
        if is_base(slots[m - 1]) {
            lemma_merged_fits(slots, m - 1, slots.len());
        }
    }
}

/// A reader over bytes gives the slots that lie in them.
pub proof fn law_reader_gives_its_records(
    reader: &MftFileReader,
    v: VolumeData,
    slots: Seq<Slot>,
    n: nat,
    i: int,
)
    requires
        slots_read(reader, v, slots, n),
        0 <= i < n <= u64::MAX,
    ensures
        slots[i] == slot_of(
            record_slice(reader.bytes(), reader.record_size() as int, i),
            i as u64,
            v.bytes_per_sector as int,
        ),
{
    assert(was_read(reader, v, slots, i));
}

/// No byte is lost or counted twice: the sizes in the index, together with
/// those of the extensions that have no base record, are the sizes of all
/// records in use.
pub proof fn law_sizes_are_kept(slots: Seq<Slot>)
    requires
        slots.len() <= u64::MAX,
        enumeration(slots) is Ok,
    ensures
        indexed_size(index_of(slots).records, slots.len()) + stray_size(
            slots,
            slots.len(),
            slots.len(),
        ) == size_in_use(slots, slots.len()),
{
    lemma_indexed_size(slots, slots.len());
    lemma_sizes_split(slots, slots.len(), slots.len());
    lemma_sizes_join(slots, slots.len());
}

/// A volume is refused once more than a hundred of its records are unusable
/// and these are more than one in a hundred.
pub proof fn law_broken_volume_is_refused(slots: Seq<Slot>, n: nat)
    requires
        n < slots.len(),
        !(slots[n as int] is Record),
        too_many_skipped(slots, n + 1),
    ensures
        enumeration(slots) is Err,
{
    assert(slot_fault(slots, n) is Some);
    assert(first_fault(slots, n + 1) is Some);
    lemma_first_fault_prefix(slots, n + 1, slots.len());
}

} // verus!
