//! The list of the attributes of a record, and where the table of records itself lies.

use crate::laws::records::{
    holds16, holds32, holds64, lemma_le16, lemma_le32, lemma_le64, raw_ref,
};
use crate::mft::attributes::{list_entries_from, Attr};
use crate::mft::bytes::{le, prefixed, units};
use crate::mft::record::data_runs_from;
use crate::mft::runs::runs_from;
use crate::mft::types::AttributeListEntryView;
use crate::mft::FileRef;
use crate::text::utf16_lossy;
use vstd::prelude::*;

verus! {

/// An entry of a list as it is laid out.
pub struct ListEntry {
    pub kind: u32,
    pub id: u16,
    pub name: Seq<u16>,
    pub lowest: u64,
    pub base: FileRef,
    /// Where the name begins, from the beginning of the entry.
    pub name_at: u8,
    /// The length of the entry.
    pub len: u16,
}

/// The entry is laid out from byte `at` on.
pub open spec fn is_entry(b: Seq<u8>, at: int, e: ListEntry) -> bool {
    &&& 0 <= at && at + e.len <= b.len()
    &&& 26 <= e.name_at && e.name_at + 2 * e.name.len() <= e.len
    &&& e.name.len() < 256
    &&& e.base.record_no < 0x1_0000_0000_0000
    &&& holds32(b, at, e.kind)
    &&& holds16(b, at + 4, e.len)
    &&& b[at + 6] == e.name.len()
    &&& b[at + 7] == e.name_at
    &&& holds64(b, at + 8, e.lowest)
    &&& holds64(b, at + 16, raw_ref(e.base) as u64)
    &&& holds16(b, at + 24, e.id)
    &&& forall|i: int| 0 <= i < e.name.len() ==> holds16(b, at + e.name_at + 2 * i, #[trigger] e.name[i])
}

/// What comes out for an entry.
pub open spec fn entry_read(e: ListEntry) -> AttributeListEntryView {
    AttributeListEntryView {
        attribute_type: e.kind,
        attribute_id: e.id,
        attribute_name: if e.name.len() == 0 {
            Seq::empty()
        } else {
            utf16_lossy(e.name)
        },
        lowest_vcn: e.lowest,
        base_reference: e.base,
    }
}

/// Where entry `n` begins if the first one begins at byte 0.
pub open spec fn entry_start(entries: Seq<ListEntry>, n: nat) -> int
    decreases n,
{
    if n == 0 {
        0
    } else {
        entry_start(entries, (n - 1) as nat) + entries[n - 1].len
    }
}

/// The entries are laid out one behind the other, and less than an entry follows.
pub open spec fn is_list(b: Seq<u8>, entries: Seq<ListEntry>) -> bool {
    &&& forall|i: int|
        0 <= i < entries.len() ==> is_entry(b, entry_start(entries, i as nat), #[trigger] entries[i])
    &&& entry_start(entries, entries.len()) <= b.len() < entry_start(entries, entries.len()) + 26
}

proof fn lemma_entry(b: Seq<u8>, at: int, e: ListEntry)
    requires
        is_entry(b, at, e),
    ensures
        list_entries_from(b, at) == prefixed(
            seq![entry_read(e)],
            list_entries_from(b, at + e.len),
        ),
{
    lemma_le32(b, at, e.kind);
    lemma_le16(b, at + 4, e.len);
    lemma_le64(b, at + 8, e.lowest);
    lemma_le64(b, at + 16, raw_ref(e.base) as u64);
    lemma_le16(b, at + 24, e.id);
    let name = units(b, at + e.name_at, e.name.len());
    assert(name =~= e.name) by {
        assert forall|i: int| 0 <= i < e.name.len() implies name[i] == e.name[i] by {
            lemma_le16(b, at + e.name_at + 2 * i, e.name[i]);
        }
    }
}

proof fn lemma_list(b: Seq<u8>, entries: Seq<ListEntry>, n: nat)
    requires
        is_list(b, entries),
        n <= entries.len(),
    ensures
        list_entries_from(b, entry_start(entries, n)) == Some(
            Seq::new((entries.len() - n) as nat, |i: int| entry_read(entries[n + i])),
        ),
    decreases entries.len() - n,
{
    let rest = Seq::new((entries.len() - n) as nat, |i: int| entry_read(entries[n + i]));
    if n == entries.len() {
        assert(rest =~= Seq::empty());
    } else {
        lemma_list(b, entries, n + 1);
        lemma_entry(b, entry_start(entries, n), entries[n as int]);
        let tail = Seq::new(
            (entries.len() - (n + 1)) as nat,
            |i: int| entry_read(entries[n + 1 + i]),
        );
        assert(seq![entry_read(entries[n as int])] + tail =~= rest);
    }
}

/// The list of the attributes of a record is read as it is laid out: every entry, in
/// order, with its kind, its name, its number and the record that holds it.
pub proof fn law_list_is_read_as_laid_out(b: Seq<u8>, entries: Seq<ListEntry>)
    requires
        is_list(b, entries),
    ensures
        ({
            let r = list_entries_from(b, 0);
            &&& r is Some
            &&& (r->0).len() == entries.len()
            &&& forall|i: int|
                0 <= i < entries.len() ==> #[trigger] (r->0)[i] == entry_read(entries[i])
        }),
{
    lemma_list(b, entries, 0);
}

/// A list with an entry that does not fit is refused, however many entries stand before
/// it.
pub proof fn law_broken_list_is_refused(b: Seq<u8>, entries: Seq<ListEntry>, n: nat, len: u16)
    requires
        n <= entries.len(),
        forall|i: int|
            0 <= i < n ==> is_entry(b, entry_start(entries, i as nat), #[trigger] entries[i]),
        entry_start(entries, n) + 26 <= b.len(),
        holds16(b, entry_start(entries, n) + 4, len),
        len < 26 || entry_start(entries, n) + len > b.len(),
    ensures
        list_entries_from(b, 0) is None,
{
    lemma_le16(b, entry_start(entries, n) + 4, len);
    lemma_broken(b, entries, n, n);
}

proof fn lemma_broken(b: Seq<u8>, entries: Seq<ListEntry>, n: nat, k: nat)
    requires
        n <= entries.len(),
        k <= n,
        forall|i: int|
            0 <= i < n ==> is_entry(b, entry_start(entries, i as nat), #[trigger] entries[i]),
        list_entries_from(b, entry_start(entries, n)) is None,
    ensures
        list_entries_from(b, entry_start(entries, (n - k) as nat)) is None,
    decreases k,
{
    if k > 0 {
        let m = (n - k) as nat;
        lemma_broken(b, entries, n, (k - 1) as nat);
        lemma_entry(b, entry_start(entries, m), entries[m as int]);
        assert(entry_start(entries, m + 1) == entry_start(entries, m) + entries[m as int].len);
    }
}

/// The attribute is the beginning of the table of records: data without a name that
/// lies outside the record and begins with cluster 0.
pub open spec fn begins_table(a: Attr) -> bool {
    &&& a.type_ == 128
    &&& a.non_resident
    &&& a.name.len() == 0
    &&& a.bytes.len() >= 64
    &&& holds64(a.bytes, 16, 0)
}

/// The attribute is data without a name that lies outside the record.
pub open spec fn is_outside_data(a: Attr) -> bool {
    a.type_ == 128 && a.non_resident && a.name.len() == 0
}

/// The table of records lies where the first attribute says that begins it: its runs
/// stand from the byte on that the attribute names. Without such an attribute nobody
/// knows where the table lies.
pub proof fn law_table_lies_where_its_record_says(attrs: Seq<Attr>, k: int, at: u16)
    requires
        forall|i: int|
            0 <= i < attrs.len() && is_outside_data(#[trigger] attrs[i]) ==> attrs[i].bytes.len()
                >= 64,
        0 <= k <= attrs.len(),
        forall|i: int| 0 <= i < k ==> !begins_table(#[trigger] attrs[i]),
        k < attrs.len() ==> begins_table(attrs[k]) && holds16(attrs[k].bytes, 32, at),
    ensures
        k == attrs.len() ==> data_runs_from(attrs, 0) is None,
        k < attrs.len() && at > attrs[k].bytes.len() ==> data_runs_from(attrs, 0) is None,
        k < attrs.len() && at <= attrs[k].bytes.len() ==> data_runs_from(attrs, 0) == runs_from(
            attrs[k].bytes.skip(at as int),
            0,
            0,
        ),
{
    if k < attrs.len() {
        lemma_le64(attrs[k].bytes, 16, 0);
        lemma_le16(attrs[k].bytes, 32, at);
        let b = attrs[k].bytes;
        if at <= b.len() {
            assert(b.skip(at as int) =~= b.subrange(at as int, b.len() as int));
        }
    }
    lemma_skipped(attrs, k, k);
}

proof fn lemma_skipped(attrs: Seq<Attr>, k: int, j: int)
    requires
        forall|i: int|
            0 <= i < attrs.len() && is_outside_data(#[trigger] attrs[i]) ==> attrs[i].bytes.len()
                >= 64,
        0 <= j <= k <= attrs.len(),
        forall|i: int| 0 <= i < k ==> !begins_table(#[trigger] attrs[i]),
    ensures
        data_runs_from(attrs, k - j) == data_runs_from(attrs, k),
    decreases j,
{
    if j > 0 {
        lemma_skipped(attrs, k, j - 1);
        let a = attrs[k - j];
        assert(!begins_table(a));
        if is_outside_data(a) && le(a.bytes, 16, 8) == 0 {
            reveal_with_fuel(le, 9);
            assert(holds64(a.bytes, 16, 0));
        }
    }
}

} // verus!
