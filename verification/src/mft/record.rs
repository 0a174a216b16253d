//! Parsing one file record.

use super::attributes::{
    attrs_of, attrs_view, file_name_of, parse_file_name, parse_reparse_tag, reparse_tag_of,
    walk_attributes, Attr, AttrView,
};
use super::bytes::{le, lemma_radix_values, read_le, read_u32_at};
use super::fixup::{usable_bytes, usable_record};
use super::runs::{decode_data_runs, runs_from};
use super::types::{
    file_ref, names_view, DataRun, FileRef, MftError, MftName, MftNameView, MftRecord,
    MftRecordView,
};
use crate::text::str_eq;
use vstd::prelude::*;
use vstd::slice::slice_subrange;

verus! {

/// Where the sequence number is stored.
pub const FILE_SEQUENCE_OFFSET: usize = 0x10;

/// Where the flags are stored.
pub const FILE_FLAGS_OFFSET: usize = 0x16;

/// Where the reference of the base record is stored.
pub const FILE_BASE_REFERENCE_OFFSET: usize = 0x20;

pub const ATTR_TYPE_ATTRIBUTE_LIST: u32 = 0x20;

pub const ATTR_TYPE_FILE_NAME: u32 = 0x30;

pub const ATTR_TYPE_DATA: u32 = 0x80;

pub const ATTR_TYPE_REPARSE_POINT: u32 = 0xC0;

/// Length of the header of a non-resident attribute.
pub const ATTR_NONRESIDENT_HEADER_LEN: usize = 0x40;

pub const ATTR_NONRES_LOWEST_VCN_OFFSET: usize = 0x10;

pub const ATTR_NONRES_RUN_OFFSET_FIELD: usize = 0x20;

pub const ATTR_NONRES_LOGICAL_SIZE_OFFSET: usize = 0x30;

pub const ATTR_RESIDENT_VALUE_LENGTH_OFFSET: usize = 0x10;

/// Namespace of a POSIX name.
pub const NAMESPACE_POSIX: u8 = 0;

/// Namespace of a long name.
pub const NAMESPACE_WIN32: u8 = 1;

/// A short name.
pub const NAMESPACE_DOS: u8 = 2;

/// Namespace of a long name that is a short name too.
pub const NAMESPACE_WIN32_AND_DOS: u8 = 3;

// ---------------------------------------------------------------------------
// Data streams
// ---------------------------------------------------------------------------

/// The attribute is the beginning of a `$DATA` stream.
pub open spec fn starts_stream(a: Attr) -> bool {
    &&& a.type_ == ATTR_TYPE_DATA
    &&& a.non_resident ==> a.bytes.len() >= ATTR_NONRESIDENT_HEADER_LEN && le(
        a.bytes,
        ATTR_NONRES_LOWEST_VCN_OFFSET as int,
        8,
    ) == 0
}

/// Two attributes of one stream: the name and the attribute id agree.
pub open spec fn same_stream(a: Attr, b: Attr) -> bool {
    a.name == b.name && a.attribute_id == b.attribute_id
}

/// Attribute `i` begins a stream that no earlier attribute begins.
pub open spec fn counts_stream(attrs: Seq<Attr>, i: int) -> bool {
    &&& starts_stream(attrs[i])
    &&& forall|j: int|
        0 <= j < i ==> !(#[trigger] starts_stream(attrs[j]) && same_stream(attrs[j], attrs[i]))
}

/// The logical size that the attribute records.
pub open spec fn stream_size(a: Attr) -> nat {
    if a.non_resident {
        le(a.bytes, ATTR_NONRES_LOGICAL_SIZE_OFFSET as int, 8)
    } else {
        le(a.bytes, ATTR_RESIDENT_VALUE_LENGTH_OFFSET as int, 4)
    }
}

/// Sum of the sizes of the streams that the first `n` attributes begin.
pub open spec fn data_total(attrs: Seq<Attr>, n: nat) -> nat
    decreases n,
{
    if n == 0 {
        0
    } else {
        data_total(attrs, (n - 1) as nat) + if counts_stream(attrs, n - 1) {
            stream_size(attrs[n - 1])
        } else {
            0
        }
    }
}

// ---------------------------------------------------------------------------
// The record
// ---------------------------------------------------------------------------

/// Attribute `i` cannot be read.
pub open spec fn attr_fault(attrs: Seq<Attr>, i: int) -> bool {
    let a = attrs[i];
    if a.type_ == ATTR_TYPE_FILE_NAME {
        file_name_of(a) is None
    } else if a.type_ == ATTR_TYPE_REPARSE_POINT {
        reparse_tag_of(a) is None
    } else if a.type_ == ATTR_TYPE_DATA {
        if a.non_resident {
            a.bytes.len() < ATTR_NONRESIDENT_HEADER_LEN
        } else {
            counts_stream(attrs, i) && a.bytes.len() < ATTR_RESIDENT_VALUE_LENGTH_OFFSET + 4
        }
    } else {
        false
    }
}

/// The names in the first `n` attributes, in order.
pub open spec fn names_in(attrs: Seq<Attr>, n: nat) -> Seq<MftNameView>
    decreases n,
{
    if n == 0 {
        Seq::empty()
    } else {
        let before = names_in(attrs, (n - 1) as nat);
        if attrs[n - 1].type_ == ATTR_TYPE_FILE_NAME {
            before.push(file_name_of(attrs[n - 1])->0)
        } else {
            before
        }
    }
}

/// The tag in the last `$REPARSE_POINT` among the first `n` attributes.
pub open spec fn reparse_in(attrs: Seq<Attr>, n: nat) -> Option<u32>
    decreases n,
{
    if n == 0 {
        None
    } else if attrs[n - 1].type_ == ATTR_TYPE_REPARSE_POINT {
        reparse_tag_of(attrs[n - 1])
    } else {
        reparse_in(attrs, (n - 1) as nat)
    }
}

/// Whether one of the attributes is a non-resident `$ATTRIBUTE_LIST`.
pub open spec fn has_nonresident_list(attrs: Seq<Attr>) -> bool {
    exists|i: int|
        0 <= i < attrs.len() && (#[trigger] attrs[i]).type_ == ATTR_TYPE_ATTRIBUTE_LIST
            && attrs[i].non_resident
}

/// The flag `bit` of record `b` is set.
pub open spec fn record_flag(b: Seq<u8>, bit: nat) -> bool {
    (le(b, FILE_FLAGS_OFFSET as int, 2) / bit) % 2 == 1
}

/// The reference of the base record of `b`, for an extension record.
pub open spec fn base_of(b: Seq<u8>) -> Option<FileRef> {
    let raw = le(b, FILE_BASE_REFERENCE_OFFSET as int, 8);
    if raw == 0 {
        None
    } else {
        Some(file_ref(raw))
    }
}

/// What the repaired record `b` with the number `no` holds; nothing where it is
/// malformed. A record that is not in use holds nothing but its header.
pub open spec fn parsed(b: Seq<u8>, no: u64) -> Option<MftRecordView> {
    let id = FileRef {
        record_no: no,
        sequence: le(b, FILE_SEQUENCE_OFFSET as int, 2) as u16,
    };
    if b.len() < FILE_BASE_REFERENCE_OFFSET + 8 {
        None
    } else if !record_flag(b, 1) {
        Some(
            MftRecordView {
                id,
                base_record: base_of(b),
                names: Seq::empty(),
                logical_size: 0,
                is_dir: record_flag(b, 2),
                in_use: false,
                reparse_tag: None,
                has_nonresident_attr_list: false,
            },
        )
    } else {
        match attrs_of(b) {
            None => None,
            Some(attrs) => if (exists|i: int| 0 <= i < attrs.len() && attr_fault(attrs, i))
                || data_total(attrs, attrs.len()) > u64::MAX {
                None
            } else {
                Some(
                    MftRecordView {
                        id,
                        base_record: base_of(b),
                        names: names_in(attrs, attrs.len()),
                        logical_size: data_total(attrs, attrs.len()) as u64,
                        is_dir: record_flag(b, 2),
                        in_use: true,
                        reparse_tag: reparse_in(attrs, attrs.len()),
                        has_nonresident_attr_list: has_nonresident_list(attrs),
                    },
                )
            },
        }
    }
}

/// What the raw record `b` with the number `no` holds; nothing where it is
/// damaged.
pub open spec fn record_of(b: Seq<u8>, no: u64, bps: int) -> Option<MftRecordView> {
    match usable_bytes(b, bps) {
        Some(f) => parsed(f, no),
        None => None,
    }
}

proof fn lemma_data_total_mono(attrs: Seq<Attr>, a: nat, b: nat)
    requires
        a <= b,
    ensures
        data_total(attrs, a) <= data_total(attrs, b),
    decreases b,
{
    if a < b {
        lemma_data_total_mono(attrs, a, (b - 1) as nat);
    }
}

/// Whether attribute `i` begins a stream; it has the length of its header.
fn begins_stream<'a>(a: &AttrView<'a>) -> (r: bool)
    requires
        a@.type_ == ATTR_TYPE_DATA && a@.non_resident ==> a@.bytes.len()
            >= ATTR_NONRESIDENT_HEADER_LEN,
    ensures
        r == starts_stream(a@),
{
    if a.type_ != ATTR_TYPE_DATA {
        return false;
    }
    if a.non_resident {
        read_le(a.bytes, ATTR_NONRES_LOWEST_VCN_OFFSET, 8) == 0
    } else {
        true
    }
}

/// Whether attribute `i` begins a stream that no earlier attribute begins.
fn first_of_stream<'a>(attrs: &Vec<AttrView<'a>>, i: usize) -> (r: bool)
    requires
        i < attrs@.len(),
        forall|j: int|
            0 <= j <= i ==> (#[trigger] attrs@[j]@.type_ == ATTR_TYPE_DATA && attrs@[j]@.non_resident
                ==> attrs@[j]@.bytes.len() >= ATTR_NONRESIDENT_HEADER_LEN),
    ensures
        r == counts_stream(attrs_view(attrs@), i as int),
{
    if !begins_stream(&attrs[i]) {
        return false;
    }
    let ghost all = attrs_view(attrs@);
    let mut j: usize = 0;
    while j < i
        invariant
            j <= i < attrs@.len(),
            all == attrs_view(attrs@),
            starts_stream(all[i as int]),
            forall|j: int|
                0 <= j <= i ==> (#[trigger] attrs@[j]@.type_ == ATTR_TYPE_DATA
                    && attrs@[j]@.non_resident ==> attrs@[j]@.bytes.len()
                    >= ATTR_NONRESIDENT_HEADER_LEN),
            forall|k: int|
                0 <= k < j ==> !(#[trigger] starts_stream(all[k]) && same_stream(
                    all[k],
                    all[i as int],
                )),
        decreases i - j,
    {
        assert(all[j as int] == attrs@[j as int]@);
        if begins_stream(&attrs[j]) && attrs[j].attribute_id == attrs[i].attribute_id && str_eq(
            attrs[j].name.as_str(),
            attrs[i].name.as_str(),
        ) {
            assert(starts_stream(all[j as int]) && same_stream(all[j as int], all[i as int]));
            return false;
        }
        j += 1;
    }
    true
}

/// Parses a raw file record. `record_no` is the number under which it was
/// read, `bytes_per_sector` comes from the volume's geometry.
pub fn parse_record(bytes: &[u8], record_no: u64, bytes_per_sector: u32) -> (r: Result<
    MftRecord,
    MftError,
>)
    ensures
        match r {
            Ok(rec) => record_of(bytes@, record_no, bytes_per_sector as int) == Some(rec@),
            Err(e) => record_of(bytes@, record_no, bytes_per_sector as int) is None && e == (
            MftError::BadRecord { ref_no: record_no }),
        },
{
    let fixed: Vec<u8> = match usable_record(bytes, record_no, bytes_per_sector) {
        Ok(v) => v,
        Err(e) => {
            return Err(e);
        },
    };
    let fixed_bytes: &[u8] = fixed.as_slice();
    if fixed_bytes.len() < FILE_BASE_REFERENCE_OFFSET + 8 {
        return Err(MftError::BadRecord { ref_no: record_no });
    }
    proof {
        lemma_radix_values();
    }
    let sequence: u16 = read_le(fixed_bytes, FILE_SEQUENCE_OFFSET, 2) as u16;
    let flags: u64 = read_le(fixed_bytes, FILE_FLAGS_OFFSET, 2);
    let base_raw: u64 = read_le(fixed_bytes, FILE_BASE_REFERENCE_OFFSET, 8);
    let in_use: bool = flags % 2 == 1;
    let is_dir: bool = (flags / 2) % 2 == 1;
    let base_record: Option<FileRef> = if base_raw == 0 {
        None
    } else {
        Some(FileRef::from_raw(base_raw))
    };
    let id = FileRef { record_no, sequence };
    if !in_use {
        let rec = MftRecord {
            id,
            base_record,
            names: Vec::new(),
            logical_size: 0,
            is_dir,
            in_use: false,
            reparse_tag: None,
            has_nonresident_attr_list: false,
        };
        assert(rec@.names =~= Seq::<MftNameView>::empty());
        return Ok(rec);
    }
    let attrs: Vec<AttrView> = match walk_attributes(fixed_bytes, record_no) {
        Ok(v) => v,
        Err(e) => {
            return Err(e);
        },
    };
    let ghost all = attrs_view(attrs@);
    let mut names: Vec<MftName> = Vec::new();
    let mut logical_size: u64 = 0;
    let mut reparse_tag: Option<u32> = None;
    let mut has_nonresident_attr_list: bool = false;
    let mut i: usize = 0;
    while i < attrs.len()
        invariant
            i <= attrs@.len(),
            all == attrs_view(attrs@),
            fixed_bytes@.len() >= FILE_BASE_REFERENCE_OFFSET + 8,
            record_flag(fixed_bytes@, 1),
            attrs_of(fixed_bytes@) == Some(all),
            record_of(bytes@, record_no, bytes_per_sector as int) == parsed(
                fixed_bytes@,
                record_no,
            ),
            forall|j: int| 0 <= j < i ==> !attr_fault(all, j),
            forall|j: int|
                0 <= j < i ==> (#[trigger] attrs@[j]@.type_ == ATTR_TYPE_DATA
                    && attrs@[j]@.non_resident ==> attrs@[j]@.bytes.len()
                    >= ATTR_NONRESIDENT_HEADER_LEN),
            names_view(names@) =~= names_in(all, i as nat),
            logical_size == data_total(all, i as nat),
            reparse_tag == reparse_in(all, i as nat),
            has_nonresident_attr_list == (exists|j: int|
                0 <= j < i && (#[trigger] all[j]).type_ == ATTR_TYPE_ATTRIBUTE_LIST
                    && all[j].non_resident),
        decreases attrs@.len() - i,
    {
        let attr: &AttrView = &attrs[i];
        let ghost names_before = names_view(names@);
        assert(all[i as int] == attr@);
        if attr.type_ == ATTR_TYPE_FILE_NAME {
            match parse_file_name(attr, record_no) {
                Ok(name) => {
                    names.push(name);
                    assert(names_view(names@) =~= names_before.push(name@));
                },
                Err(_) => {
                    assert(attr_fault(all, i as int));
                    return Err(MftError::BadRecord { ref_no: record_no });
                },
            }
        } else if attr.type_ == ATTR_TYPE_DATA {
            if attr.non_resident && attr.bytes.len() < ATTR_NONRESIDENT_HEADER_LEN {
                assert(attr_fault(all, i as int));
                return Err(MftError::BadRecord { ref_no: record_no });
            }
            if first_of_stream(&attrs, i) {
                let size: u64 = if attr.non_resident {
                    read_le(attr.bytes, ATTR_NONRES_LOGICAL_SIZE_OFFSET, 8)
                } else {
                    match read_u32_at(attr.bytes, ATTR_RESIDENT_VALUE_LENGTH_OFFSET, record_no) {
                        Ok(v) => v as u64,
                        Err(e) => {
                            assert(attr_fault(all, i as int));
                            return Err(e);
                        },
                    }
                };
                match accumulate_data_size(logical_size, size, record_no) {
                    Ok(sum) => {
                        logical_size = sum;
                    },
                    Err(e) => {
                        proof {
                            assert(data_total(all, (i + 1) as nat) > u64::MAX);
                            lemma_data_total_mono(all, (i + 1) as nat, all.len());
                        }
                        return Err(e);
                    },
                }
            }
        } else if attr.type_ == ATTR_TYPE_REPARSE_POINT {
            match parse_reparse_tag(attr, record_no) {
                Ok(tag) => {
                    reparse_tag = Some(tag);
                },
                Err(_) => {
                    assert(attr_fault(all, i as int));
                    return Err(MftError::BadRecord { ref_no: record_no });
                },
            }
        } else if attr.type_ == ATTR_TYPE_ATTRIBUTE_LIST {
            if attr.non_resident {
                has_nonresident_attr_list = true;
                assert(all[i as int].type_ == ATTR_TYPE_ATTRIBUTE_LIST && all[i as int].non_resident);
            }
        }
        i += 1;
    }
    Ok(
        MftRecord {
            id,
            base_record,
            names,
            logical_size,
            is_dir,
            in_use: true,
            reparse_tag,
            has_nonresident_attr_list,
        },
    )
}

/// The sum of the sizes so far and one more; a sum beyond 64 bits means that
/// the record is damaged.
fn accumulate_data_size(logical_size: u64, value: u64, record_no: u64) -> (r: Result<u64, MftError>)
    ensures
        match r {
            Ok(sum) => sum == logical_size + value,
            Err(e) => logical_size + value > u64::MAX && e == (MftError::BadRecord {
                ref_no: record_no,
            }),
        },
{
    match logical_size.checked_add(value) {
        Some(sum) => Ok(sum),
        None => Err(MftError::BadRecord { ref_no: record_no }),
    }
}

// ---------------------------------------------------------------------------
// Names
// ---------------------------------------------------------------------------

/// A long name.
pub open spec fn is_win32_name(n: MftNameView) -> bool {
    n.namespace == NAMESPACE_WIN32 || n.namespace == NAMESPACE_WIN32_AND_DOS
}

/// The names under which the record is filed: its long names, or its POSIX
/// names where it has no long name. A short name alone files nothing.
pub open spec fn effective_names(names: Seq<MftNameView>) -> Seq<MftNameView> {
    if exists|i: int| 0 <= i < names.len() && is_win32_name(#[trigger] names[i]) {
        names.filter(|n: MftNameView| is_win32_name(n))
    } else {
        names.filter(|n: MftNameView| n.namespace == NAMESPACE_POSIX)
    }
}

/// A short name alone files nothing, and nothing is filed under a name that
/// the record does not have.
pub proof fn law_short_names_file_nothing(names: Seq<MftNameView>, i: int)
    requires
        0 <= i < effective_names(names).len(),
    ensures
        names.contains(effective_names(names)[i]),
        effective_names(names)[i].namespace != NAMESPACE_DOS,
{
    let long = |n: MftNameView| is_win32_name(n);
    let posix = |n: MftNameView| n.namespace == NAMESPACE_POSIX;
    let chosen = effective_names(names);
    assert(chosen.contains(chosen[i]));
    if exists|k: int| 0 <= k < names.len() && is_win32_name(#[trigger] names[k]) {
        assert(chosen == names.filter(long));
        names.lemma_filter_contains_rev(long, chosen[i]);
        names.lemma_filter_pred(long, i);
    } else {
        assert(chosen == names.filter(posix));
        names.lemma_filter_contains_rev(posix, chosen[i]);
        names.lemma_filter_pred(posix, i);
    }
}

/// Selects the names under which the record is filed, in their order.
pub fn select_effective_names(names: &[MftName]) -> (r: Vec<MftName>)
    ensures
        names_view(r@) == effective_names(names_view(names@)),
{
    let ghost all = names_view(names@);
    let mut has_win32: bool = false;
    let mut i: usize = 0;
    while i < names.len()
        invariant
            i <= names@.len(),
            all == names_view(names@),
            has_win32 == (exists|j: int| 0 <= j < i && is_win32_name(#[trigger] all[j])),
        decreases names@.len() - i,
    {
        assert(all[i as int] == names@[i as int]@);
        if names[i].namespace == NAMESPACE_WIN32 || names[i].namespace == NAMESPACE_WIN32_AND_DOS {
            assert(is_win32_name(all[i as int]));
            has_win32 = true;
        }
        i += 1;
    }
    let ghost keep = if has_win32 {
        |n: MftNameView| is_win32_name(n)
    } else {
        |n: MftNameView| n.namespace == NAMESPACE_POSIX
    };
    let mut out: Vec<MftName> = Vec::new();
    let mut k: usize = 0;
    proof {
        reveal(Seq::filter);
        assert(all.take(0).filter(keep) =~= Seq::<MftNameView>::empty());
    }
    while k < names.len()
        invariant
            k <= names@.len(),
            all == names_view(names@),
            forall|n: MftNameView|
                #[trigger] keep(n) == if has_win32 {
                    is_win32_name(n)
                } else {
                    n.namespace == NAMESPACE_POSIX
                },
            names_view(out@) =~= all.take(k as int).filter(keep),
        decreases names@.len() - k,
    {
        let ns: u8 = names[k].namespace;
        let kept: bool = if has_win32 {
            ns == NAMESPACE_WIN32 || ns == NAMESPACE_WIN32_AND_DOS
        } else {
            ns == NAMESPACE_POSIX
        };
        let ghost before = names_view(out@);
        proof {
            reveal(Seq::filter);
            assert(all.take(k + 1).drop_last() =~= all.take(k as int));
            assert(all.take(k + 1).last() == all[k as int]);
            assert(all[k as int] == names@[k as int]@);
        }
        if kept {
            let name = names[k].copy();
            out.push(name);
            assert(names_view(out@) =~= before.push(all[k as int]));
        }
        k += 1;
    }
    proof {
        assert(all.take(all.len() as int) =~= all);
    }
    out
}

// ---------------------------------------------------------------------------
// The runs of the `$MFT` itself
// ---------------------------------------------------------------------------

/// The attribute is a non-resident `$DATA` attribute without a name.
pub open spec fn is_unnamed_nonresident_data(a: Attr) -> bool {
    a.type_ == ATTR_TYPE_DATA && a.non_resident && a.name.len() == 0
}

/// The runs of the default data stream among the attributes from `i` on;
/// nothing where there is no such stream or it is malformed.
pub open spec fn data_runs_from(attrs: Seq<Attr>, i: int) -> Option<Seq<DataRun>>
    decreases attrs.len() - i,
{
    if i >= attrs.len() {
        None
    } else if !is_unnamed_nonresident_data(attrs[i]) {
        data_runs_from(attrs, i + 1)
    } else {
        let a = attrs[i].bytes;
        if a.len() < ATTR_NONRESIDENT_HEADER_LEN {
            None
        } else if le(a, ATTR_NONRES_LOWEST_VCN_OFFSET as int, 8) != 0 {
            data_runs_from(attrs, i + 1)
        } else {
            let at = le(a, ATTR_NONRES_RUN_OFFSET_FIELD as int, 2);
            if at > a.len() {
                None
            } else {
                runs_from(a.subrange(at as int, a.len() as int), 0, 0)
            }
        }
    }
}

/// The runs of the `$MFT` that its raw record 0 describes.
pub open spec fn mft_runs(b: Seq<u8>, bps: int) -> Option<Seq<DataRun>> {
    match usable_bytes(b, bps) {
        Some(f) => match attrs_of(f) {
            Some(attrs) => data_runs_from(attrs, 0),
            None => None,
        },
        None => None,
    }
}

/// Reads from record 0 where the `$MFT` itself lies.
pub fn extract_mft_data_runs(record0_bytes: &[u8], bytes_per_sector: u32) -> (r: Result<
    Vec<DataRun>,
    MftError,
>)
    ensures
        match r {
            Ok(runs) => mft_runs(record0_bytes@, bytes_per_sector as int) == Some(runs@),
            Err(e) => mft_runs(record0_bytes@, bytes_per_sector as int) is None && e == (
            MftError::BadRecord { ref_no: 0 }),
        },
{
    let fixed: Vec<u8> = match usable_record(record0_bytes, 0, bytes_per_sector) {
        Ok(v) => v,
        Err(e) => {
            return Err(e);
        },
    };
    let attrs: Vec<AttrView> = match walk_attributes(fixed.as_slice(), 0) {
        Ok(v) => v,
        Err(e) => {
            return Err(e);
        },
    };
    let ghost all = attrs_view(attrs@);
    let mut i: usize = 0;
    while i < attrs.len()
        invariant
            i <= attrs@.len(),
            all == attrs_view(attrs@),
            mft_runs(record0_bytes@, bytes_per_sector as int) == data_runs_from(all, i as int),
        decreases attrs@.len() - i,
    {
        let attr: &AttrView = &attrs[i];
        assert(all[i as int] == attr@);
        if attr.type_ == ATTR_TYPE_DATA && attr.non_resident && attr.name.as_str().is_empty() {
            if attr.bytes.len() < ATTR_NONRESIDENT_HEADER_LEN {
                return Err(MftError::BadRecord { ref_no: 0 });
            }
            if read_le(attr.bytes, ATTR_NONRES_LOWEST_VCN_OFFSET, 8) == 0 {
                proof {
                    lemma_radix_values();
                }
                let run_offset: usize = read_le(attr.bytes, ATTR_NONRES_RUN_OFFSET_FIELD, 2) as usize;
                if run_offset > attr.bytes.len() {
                    return Err(MftError::BadRecord { ref_no: 0 });
                }
                return decode_data_runs(slice_subrange(attr.bytes, run_offset, attr.bytes.len()));
            }
        }
        i += 1;
    }
    Err(MftError::BadRecord { ref_no: 0 })
}

} // verus!
