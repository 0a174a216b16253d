//! The attributes of a file record.

use super::bytes::{
    decode_attr_name, le, lemma_prefixed_empty, lemma_prefixed_push, lemma_radix_values, prefixed,
    read_le, read_u32_at, units,
};
use super::types::{
    file_ref, AttributeListEntry, AttributeListEntryView, FileRef, MftError, MftName, MftNameView,
};
use crate::text::utf16_lossy;
use vstd::prelude::*;
use vstd::slice::slice_subrange;

verus! {

/// Where the offset of the first attribute is stored.
pub const FILE_FIRST_ATTRIBUTE_OFFSET: usize = 0x14;

/// Where the number of used bytes is stored.
pub const FILE_BYTES_IN_USE_OFFSET: usize = 0x18;

/// Length of the part of an attribute's header that all attributes share.
pub const ATTR_COMMON_HEADER_LEN: usize = 0x10;

pub const ATTR_LENGTH_OFFSET: usize = 0x04;

pub const ATTR_NONRES_FLAG_OFFSET: usize = 0x08;

pub const ATTR_NAME_LENGTH_OFFSET: usize = 0x09;

pub const ATTR_NAME_OFFSET_FIELD: usize = 0x0A;

pub const ATTR_ATTRIBUTE_ID_OFFSET: usize = 0x0E;

pub const ATTR_RESIDENT_VALUE_LENGTH_OFFSET: usize = 0x10;

pub const ATTR_RESIDENT_VALUE_OFFSET_FIELD: usize = 0x14;

/// Type that ends the attributes of a record.
pub const ATTR_TYPE_END_MARKER: u32 = 0xFFFF_FFFF;

pub const FILE_NAME_NAME_LENGTH_OFFSET: usize = 0x40;

pub const FILE_NAME_NAMESPACE_OFFSET: usize = 0x41;

/// Where the name starts in the value of a `$FILE_NAME` attribute.
pub const FILE_NAME_NAME_OFFSET: usize = 0x42;

pub const ATTR_LIST_ENTRY_LENGTH_OFFSET: usize = 0x04;

pub const ATTR_LIST_ENTRY_NAME_LENGTH_OFFSET: usize = 0x06;

pub const ATTR_LIST_ENTRY_NAME_OFFSET_FIELD: usize = 0x07;

pub const ATTR_LIST_ENTRY_LOWEST_VCN_OFFSET: usize = 0x08;

pub const ATTR_LIST_ENTRY_BASE_REF_OFFSET: usize = 0x10;

pub const ATTR_LIST_ENTRY_ATTR_ID_OFFSET: usize = 0x18;

/// Length of the fixed part of an `$ATTRIBUTE_LIST` entry.
pub const ATTR_LIST_ENTRY_MIN_LEN: usize = 0x1A;

/// Model of one attribute: its decoded header and its bytes, header included.
pub struct Attr {
    pub type_: u32,
    pub non_resident: bool,
    pub attribute_id: u16,
    pub name: Seq<char>,
    pub bytes: Seq<u8>,
}

/// The name of the attribute with the bytes `a`; nothing where it does not lie
/// inside the attribute.
pub open spec fn attr_name(a: Seq<u8>) -> Option<Seq<char>> {
    let n = a[ATTR_NAME_LENGTH_OFFSET as int] as nat;
    let at = le(a, ATTR_NAME_OFFSET_FIELD as int, 2);
    if n == 0 {
        Some(Seq::empty())
    } else if at < ATTR_COMMON_HEADER_LEN || at + 2 * n > a.len() {
        None
    } else {
        Some(utf16_lossy(units(a, at as int, n)))
    }
}

/// The attribute with the bytes `a` and the name `name`.
pub open spec fn attr_of(a: Seq<u8>, name: Seq<char>) -> Attr {
    Attr {
        type_: le(a, 0, 4) as u32,
        non_resident: a[ATTR_NONRES_FLAG_OFFSET as int] != 0,
        attribute_id: le(a, ATTR_ATTRIBUTE_ID_OFFSET as int, 2) as u16,
        name,
        bytes: a,
    }
}

/// The attributes of record `b` from byte `at` on, up to byte `limit` or the
/// end marker; nothing where one is malformed.
pub open spec fn attrs_from(b: Seq<u8>, at: int, limit: int) -> Option<Seq<Attr>>
    decreases limit - at,
{
    if at + ATTR_COMMON_HEADER_LEN > limit || le(b, at, 4) == ATTR_TYPE_END_MARKER {
        Some(Seq::empty())
    } else {
        let len = le(b, at + ATTR_LENGTH_OFFSET, 4);
        if len < ATTR_COMMON_HEADER_LEN || at + len > limit {
            None
        } else {
            let a = b.subrange(at, at + len);
            match attr_name(a) {
                Some(name) => prefixed(seq![attr_of(a, name)], attrs_from(b, at + len, limit)),
                None => None,
            }
        }
    }
}

/// The attributes of record `b`; nothing where the record is malformed.
pub open spec fn attrs_of(b: Seq<u8>) -> Option<Seq<Attr>> {
    let first = le(b, FILE_FIRST_ATTRIBUTE_OFFSET as int, 2);
    let used = le(b, FILE_BYTES_IN_USE_OFFSET as int, 4);
    if used > b.len() || first < FILE_FIRST_ATTRIBUTE_OFFSET || first >= used {
        None
    } else {
        attrs_from(b, first as int, used as int)
    }
}

/// One attribute of a record, over the record's bytes.
pub struct AttrView<'a> {
    pub type_: u32,
    pub non_resident: bool,
    pub attribute_id: u16,
    pub name: String,
    pub bytes: &'a [u8],
}

impl<'a> View for AttrView<'a> {
    type V = Attr;

    open spec fn view(&self) -> Attr {
        Attr {
            type_: self.type_,
            non_resident: self.non_resident,
            attribute_id: self.attribute_id,
            name: self.name@,
            bytes: self.bytes@,
        }
    }
}

/// The models of a sequence of attributes.
pub open spec fn attrs_view<'a>(attrs: Seq<AttrView<'a>>) -> Seq<Attr> {
    Seq::new(attrs.len(), |i: int| attrs[i]@)
}

/// Reads the header of the attribute with the bytes `bytes`.
fn read_attribute<'a>(bytes: &'a [u8], record_no: u64) -> (r: Result<AttrView<'a>, MftError>)
    requires
        bytes@.len() >= ATTR_COMMON_HEADER_LEN,
    ensures
        match r {
            Ok(v) => v.bytes@ == bytes@ && attr_name(bytes@) is Some && v@ == attr_of(
                bytes@,
                attr_name(bytes@)->0,
            ),
            Err(e) => attr_name(bytes@) is None && e == (MftError::BadRecord {
                ref_no: record_no,
            }),
        },
{
    proof {
        lemma_radix_values();
    }
    let type_: u32 = read_le(bytes, 0, 4) as u32;
    let attribute_id: u16 = read_le(bytes, ATTR_ATTRIBUTE_ID_OFFSET, 2) as u16;
    let non_resident: bool = bytes[ATTR_NONRES_FLAG_OFFSET] != 0;
    let name_len: usize = bytes[ATTR_NAME_LENGTH_OFFSET] as usize;
    let name_offset: usize = read_le(bytes, ATTR_NAME_OFFSET_FIELD, 2) as usize;
    let name: String = if name_len > 0 {
        if name_offset < ATTR_COMMON_HEADER_LEN {
            return Err(MftError::BadRecord { ref_no: record_no });
        }
        match decode_attr_name(bytes, name_offset, name_len, record_no) {
            Ok(s) => s,
            Err(e) => {
                return Err(e);
            },
        }
    } else {
        String::new()
    };
    Ok(AttrView { type_, non_resident, attribute_id, name, bytes })
}

/// All attributes of a record, in order.
pub fn walk_attributes<'a>(fixed: &'a [u8], record_no: u64) -> (r: Result<
    Vec<AttrView<'a>>,
    MftError,
>)
    requires
        fixed@.len() >= 0x1C,
    ensures
        match r {
            Ok(v) => attrs_of(fixed@) == Some(attrs_view(v@)),
            Err(e) => attrs_of(fixed@) is None && e == (MftError::BadRecord { ref_no: record_no }),
        },
{
    proof {
        lemma_radix_values();
    }
    let len: usize = fixed.len();
    let first_attr: usize = read_le(fixed, FILE_FIRST_ATTRIBUTE_OFFSET, 2) as usize;
    let bytes_in_use: usize = read_le(fixed, FILE_BYTES_IN_USE_OFFSET, 4) as usize;
    if bytes_in_use > len || first_attr < FILE_FIRST_ATTRIBUTE_OFFSET || first_attr
        >= bytes_in_use {
        return Err(MftError::BadRecord { ref_no: record_no });
    }
    let mut attrs: Vec<AttrView<'a>> = Vec::new();
    let mut offset: usize = first_attr;
    proof {
        lemma_prefixed_empty(attrs_from(fixed@, offset as int, bytes_in_use as int));
        assert(attrs_view(attrs@) =~= Seq::<Attr>::empty());
    }
    while offset <= bytes_in_use && bytes_in_use - offset >= ATTR_COMMON_HEADER_LEN
        invariant_except_break
            offset <= bytes_in_use <= len,
            len == fixed@.len(),
            prefixed(attrs_view(attrs@), attrs_from(fixed@, offset as int, bytes_in_use as int))
                == attrs_of(fixed@),
        ensures
            attrs_of(fixed@) == Some(attrs_view(attrs@)),
        decreases bytes_in_use - offset,
    {
        let type_: u64 = read_le(fixed, offset, 4);
        if type_ == ATTR_TYPE_END_MARKER as u64 {
            proof {
                assert(attrs_view(attrs@) + Seq::<Attr>::empty() =~= attrs_view(attrs@));
            }
            break;
        }
        let length: usize = read_le(fixed, offset + ATTR_LENGTH_OFFSET, 4) as usize;
        proof {
            lemma_radix_values();
        }
        if length < ATTR_COMMON_HEADER_LEN || length > bytes_in_use - offset {
            return Err(MftError::BadRecord { ref_no: record_no });
        }
        let end: usize = offset + length;
        let part = slice_subrange(fixed, offset, end);
        match read_attribute(part, record_no) {
            Ok(view) => {
                let ghost done = attrs_view(attrs@);
                attrs.push(view);
                proof {
                    assert(attrs_view(attrs@) =~= done.push(view@));
                    lemma_prefixed_push(
                        done,
                        view@,
                        attrs_from(fixed@, end as int, bytes_in_use as int),
                    );
                }
            },
            Err(e) => {
                return Err(e);
            },
        }
        offset = end;
        proof {
            if offset + ATTR_COMMON_HEADER_LEN > bytes_in_use {
                assert(attrs_view(attrs@) + Seq::<Attr>::empty() =~= attrs_view(attrs@));
            }
        }
    }
    Ok(attrs)
}

// ---------------------------------------------------------------------------
// `$FILE_NAME` and `$REPARSE_POINT`
// ---------------------------------------------------------------------------

/// Where the value of a resident attribute starts.
pub open spec fn value_offset(a: Seq<u8>) -> nat {
    le(a, ATTR_RESIDENT_VALUE_OFFSET_FIELD as int, 2)
}

/// How long the value of a resident attribute is.
pub open spec fn value_length(a: Seq<u8>) -> nat {
    le(a, ATTR_RESIDENT_VALUE_LENGTH_OFFSET as int, 4)
}

/// The entry that a `$FILE_NAME` attribute holds; nothing where it is malformed.
pub open spec fn file_name_of(attr: Attr) -> Option<MftNameView> {
    let a = attr.bytes;
    let v = value_offset(a);
    let end = v + value_length(a);
    if attr.non_resident || a.len() < 0x16 || end > a.len() || v + FILE_NAME_NAME_OFFSET > end {
        None
    } else {
        let n = a[v + FILE_NAME_NAME_LENGTH_OFFSET] as nat;
        if v + FILE_NAME_NAME_OFFSET + 2 * n > end {
            None
        } else {
            Some(
                MftNameView {
                    parent: file_ref(le(a, v as int, 8)),
                    name: utf16_lossy(units(a, v + FILE_NAME_NAME_OFFSET, n)),
                    namespace: a[v + FILE_NAME_NAMESPACE_OFFSET],
                },
            )
        }
    }
}

/// Reads a `$FILE_NAME` attribute.
pub fn parse_file_name<'a>(attr: &AttrView<'a>, record_no: u64) -> (r: Result<MftName, MftError>)
    ensures
        match r {
            Ok(name) => file_name_of(attr@) == Some(name@),
            Err(e) => file_name_of(attr@) is None && e == (MftError::BadRecord {
                ref_no: record_no,
            }),
        },
{
    let bytes = attr.bytes;
    let len: usize = bytes.len();
    if attr.non_resident || len < 0x16 {
        return Err(MftError::BadRecord { ref_no: record_no });
    }
    proof {
        lemma_radix_values();
    }
    let value_offset: usize = read_le(bytes, ATTR_RESIDENT_VALUE_OFFSET_FIELD, 2) as usize;
    let value_length: usize = read_le(bytes, ATTR_RESIDENT_VALUE_LENGTH_OFFSET, 4) as usize;
    if value_offset > len || value_length > len - value_offset || value_length
        < FILE_NAME_NAME_OFFSET {
        return Err(MftError::BadRecord { ref_no: record_no });
    }
    let parent_raw: u64 = read_le(bytes, value_offset, 8);
    let name_len_utf16: usize = bytes[value_offset + FILE_NAME_NAME_LENGTH_OFFSET] as usize;
    let namespace: u8 = bytes[value_offset + FILE_NAME_NAMESPACE_OFFSET];
    if FILE_NAME_NAME_OFFSET + 2 * name_len_utf16 > value_length {
        return Err(MftError::BadRecord { ref_no: record_no });
    }
    match decode_attr_name(bytes, value_offset + FILE_NAME_NAME_OFFSET, name_len_utf16, record_no) {
        Ok(name) => Ok(MftName { parent: FileRef::from_raw(parent_raw), name, namespace }),
        Err(e) => Err(e),
    }
}

/// The tag that a `$REPARSE_POINT` attribute holds; nothing where it is malformed.
pub open spec fn reparse_tag_of(attr: Attr) -> Option<u32> {
    let a = attr.bytes;
    if attr.non_resident || a.len() < 0x16 || value_length(a) < 4 || value_offset(a) + 4
        > a.len() {
        None
    } else {
        Some(le(a, value_offset(a) as int, 4) as u32)
    }
}

/// Reads the tag of a `$REPARSE_POINT` attribute.
pub fn parse_reparse_tag<'a>(attr: &AttrView<'a>, record_no: u64) -> (r: Result<u32, MftError>)
    ensures
        match r {
            Ok(tag) => reparse_tag_of(attr@) == Some(tag),
            Err(e) => reparse_tag_of(attr@) is None && e == (MftError::BadRecord {
                ref_no: record_no,
            }),
        },
{
    let bytes = attr.bytes;
    if attr.non_resident || bytes.len() < 0x16 {
        return Err(MftError::BadRecord { ref_no: record_no });
    }
    proof {
        lemma_radix_values();
    }
    let value_offset: usize = read_le(bytes, ATTR_RESIDENT_VALUE_OFFSET_FIELD, 2) as usize;
    let value_length: usize = read_le(bytes, ATTR_RESIDENT_VALUE_LENGTH_OFFSET, 4) as usize;
    if value_length < 4 {
        return Err(MftError::BadRecord { ref_no: record_no });
    }
    read_u32_at(bytes, value_offset, record_no)
}

// ---------------------------------------------------------------------------
// `$ATTRIBUTE_LIST`
// ---------------------------------------------------------------------------

/// The entry that starts at byte `at` and is `len` bytes long; nothing where
/// its name does not lie inside it.
pub open spec fn list_entry_at(b: Seq<u8>, at: int, len: int) -> Option<AttributeListEntryView> {
    let n = b[at + ATTR_LIST_ENTRY_NAME_LENGTH_OFFSET] as nat;
    let off = b[at + ATTR_LIST_ENTRY_NAME_OFFSET_FIELD] as nat;
    if n > 0 && (off < ATTR_LIST_ENTRY_MIN_LEN || off + 2 * n > len) {
        None
    } else {
        Some(
            AttributeListEntryView {
                attribute_type: le(b, at, 4) as u32,
                attribute_id: le(b, at + ATTR_LIST_ENTRY_ATTR_ID_OFFSET, 2) as u16,
                attribute_name: if n == 0 {
                    Seq::empty()
                } else {
                    utf16_lossy(units(b, at + off, n))
                },
                lowest_vcn: le(b, at + ATTR_LIST_ENTRY_LOWEST_VCN_OFFSET, 8) as u64,
                base_reference: file_ref(le(b, at + ATTR_LIST_ENTRY_BASE_REF_OFFSET, 8)),
            },
        )
    }
}

/// The entries of the list `b` from byte `at` on; nothing where one is
/// malformed. A tail too short for an entry is slack.
pub open spec fn list_entries_from(b: Seq<u8>, at: int) -> Option<Seq<AttributeListEntryView>>
    decreases b.len() - at,
{
    if at + ATTR_LIST_ENTRY_MIN_LEN > b.len() {
        Some(Seq::empty())
    } else {
        let len = le(b, at + ATTR_LIST_ENTRY_LENGTH_OFFSET, 2);
        if len < ATTR_LIST_ENTRY_MIN_LEN || at + len > b.len() {
            None
        } else {
            match list_entry_at(b, at, len as int) {
                Some(e) => prefixed(seq![e], list_entries_from(b, at + len)),
                None => None,
            }
        }
    }
}

/// The models of a sequence of list entries.
pub open spec fn list_entries_view(entries: Seq<AttributeListEntry>) -> Seq<
    AttributeListEntryView,
> {
    Seq::new(entries.len(), |i: int| entries[i]@)
}

/// Parses the value of an `$ATTRIBUTE_LIST` attribute.
pub fn parse_attribute_list_entries(list_value: &[u8], record_no: u64) -> (r: Result<
    Vec<AttributeListEntry>,
    MftError,
>)
    ensures
        match r {
            Ok(v) => list_entries_from(list_value@, 0) == Some(list_entries_view(v@)),
            Err(e) => list_entries_from(list_value@, 0) is None && e == (MftError::BadRecord {
                ref_no: record_no,
            }),
        },
{
    let len: usize = list_value.len();
    let mut entries: Vec<AttributeListEntry> = Vec::new();
    let mut pos: usize = 0;
    proof {
        lemma_prefixed_empty(list_entries_from(list_value@, 0));
        assert(list_entries_view(entries@) =~= Seq::<AttributeListEntryView>::empty());
    }
    while len - pos >= ATTR_LIST_ENTRY_MIN_LEN
        invariant
            pos <= len,
            len == list_value@.len(),
            prefixed(list_entries_view(entries@), list_entries_from(list_value@, pos as int))
                == list_entries_from(list_value@, 0),
        decreases len - pos,
    {
        proof {
            lemma_radix_values();
        }
        let attribute_type: u32 = read_le(list_value, pos, 4) as u32;
        let entry_len: usize = read_le(list_value, pos + ATTR_LIST_ENTRY_LENGTH_OFFSET, 2) as usize;
        if entry_len < ATTR_LIST_ENTRY_MIN_LEN || entry_len > len - pos {
            return Err(MftError::BadRecord { ref_no: record_no });
        }
        let name_len: usize = list_value[pos + ATTR_LIST_ENTRY_NAME_LENGTH_OFFSET] as usize;
        let name_offset: usize = list_value[pos + ATTR_LIST_ENTRY_NAME_OFFSET_FIELD] as usize;
        let lowest_vcn: u64 = read_le(list_value, pos + ATTR_LIST_ENTRY_LOWEST_VCN_OFFSET, 8);
        let base_raw: u64 = read_le(list_value, pos + ATTR_LIST_ENTRY_BASE_REF_OFFSET, 8);
        let attribute_id: u16 = read_le(list_value, pos + ATTR_LIST_ENTRY_ATTR_ID_OFFSET, 2) as u16;
        let attribute_name: String = if name_len > 0 {
            if name_offset < ATTR_LIST_ENTRY_MIN_LEN || name_offset + 2 * name_len > entry_len {
                return Err(MftError::BadRecord { ref_no: record_no });
            }
            match decode_attr_name(list_value, pos + name_offset, name_len, record_no) {
                Ok(s) => s,
                Err(e) => {
                    return Err(e);
                },
            }
        } else {
            String::new()
        };
        let entry = AttributeListEntry {
            attribute_type,
            attribute_id,
            attribute_name,
            lowest_vcn,
            base_reference: FileRef::from_raw(base_raw),
        };
        let ghost done = list_entries_view(entries@);
        entries.push(entry);
        pos += entry_len;
        proof {
            assert(list_entries_view(entries@) =~= done.push(entry@));
            lemma_prefixed_push(done, entry@, list_entries_from(list_value@, pos as int));
        }
    }
    proof {
        assert(list_entries_view(entries@) + Seq::<AttributeListEntryView>::empty()
            =~= list_entries_view(entries@));
    }
    Ok(entries)
}

} // verus!
