//! Reading a file record: what is laid out in its bytes is what comes out.

use crate::mft::attributes::{
    attr_name, attr_of, attrs_from, attrs_of, file_name_of, reparse_tag_of, Attr,
};
use crate::mft::bytes::{le, lemma_le_subrange, units};
use crate::mft::fixup::usable_bytes;
use crate::mft::record::{
    attr_fault, counts_stream, data_total, names_in, record_of, reparse_in, same_stream,
    starts_stream, stream_size,
};
use crate::mft::types::MftNameView;
use crate::mft::FileRef;
use crate::text::utf16_lossy;
use vstd::prelude::*;

verus! {

// ---------------------------------------------------------------------------
// The layout
// ---------------------------------------------------------------------------

/// The two bytes at `at` are the number, the low byte first.
pub open spec fn holds16(b: Seq<u8>, at: int, v: u16) -> bool {
    &&& 0 <= at && at + 2 <= b.len()
    &&& b[at] == v % 256
    &&& b[at + 1] == v / 256
}

/// The four bytes at `at` are the number, the low byte first.
pub open spec fn holds32(b: Seq<u8>, at: int, v: u32) -> bool {
    &&& 0 <= at && at + 4 <= b.len()
    &&& b[at] == v % 256
    &&& b[at + 1] == v / 256 % 256
    &&& b[at + 2] == v / 65536 % 256
    &&& b[at + 3] == v / 16777216
}

/// The eight bytes at `at` are the number, the low byte first.
pub open spec fn holds64(b: Seq<u8>, at: int, v: u64) -> bool {
    &&& 0 <= at && at + 8 <= b.len()
    &&& b[at] == v % 256
    &&& b[at + 1] == v / 256 % 256
    &&& b[at + 2] == v / 65536 % 256
    &&& b[at + 3] == v / 16777216 % 256
    &&& b[at + 4] == v / 4294967296 % 256
    &&& b[at + 5] == v / 1099511627776 % 256
    &&& b[at + 6] == v / 281474976710656 % 256
    &&& b[at + 7] == v / 72057594037927936
}

/// The number that stands for a reference: the record number below 48 bits, the
/// sequence number above them.
pub open spec fn raw_ref(r: FileRef) -> int {
    r.record_no + r.sequence * 0x1_0000_0000_0000
}

/// What an attribute holds.
pub enum Content {
    /// A name in a directory.
    Name { parent: FileRef, name: Seq<u16>, namespace: u8 },
    /// A data stream inside the record.
    Inside { length: u32 },
    /// A part of a data stream outside the record, from a cluster of the stream on.
    Outside { lowest: u64, size: u64 },
    Reparse { tag: u32 },
    /// A list of attributes outside the record.
    List,
    /// Something of another type.
    Other { type_: u32 },
}

/// `a` is an attribute without a name that has the id and holds the content.
pub open spec fn is_attribute(a: Seq<u8>, id: u16, content: Content) -> bool {
    &&& 16 <= a.len() <= u32::MAX
    &&& holds32(a, 4, a.len() as u32)
    &&& a[9] == 0
    &&& holds16(a, 14, id)
    &&& match content {
        Content::Name { parent, name, namespace } => exists|at: u16, len: u32|
            is_name_value(a, at, len, parent, name, namespace),
        Content::Inside { length } => holds32(a, 0, 0x80) && a[8] == 0 && holds32(a, 16, length),
        Content::Outside { lowest, size } => holds32(a, 0, 0x80) && a[8] != 0 && a.len() >= 64
            && holds64(a, 16, lowest) && holds64(a, 48, size),
        Content::Reparse { tag } => exists|at: u16, len: u32|
            #![auto]
            holds32(a, 0, 0xC0) && a[8] == 0 && holds32(a, 16, len) && holds16(a, 20, at) && len
                >= 4 && at + len <= a.len() && holds32(a, at as int, tag),
        Content::List => holds32(a, 0, 0x20) && a[8] != 0,
        Content::Other { type_ } => holds32(a, 0, type_) && type_ != 0x20 && type_ != 0x30 && type_
            != 0x80 && type_ != 0xC0 && type_ != 0xFFFF_FFFF,
    }
}

/// The value of the attribute is `len` bytes long, starts at `at`, and holds the name.
pub open spec fn is_name_value(
    a: Seq<u8>,
    at: u16,
    len: u32,
    parent: FileRef,
    name: Seq<u16>,
    namespace: u8,
) -> bool {
    &&& holds32(a, 0, 0x30)
    &&& a[8] == 0
    &&& holds32(a, 16, len)
    &&& holds16(a, 20, at)
    &&& at + len <= a.len()
    &&& 66 + 2 * name.len() <= len
    &&& name.len() <= 255
    &&& parent.record_no < 0x1_0000_0000_0000
    &&& holds64(a, at as int, raw_ref(parent) as u64)
    &&& a[at + 64] == name.len()
    &&& a[at + 65] == namespace
    &&& forall|i: int| 0 <= i < name.len() ==> holds16(a, at + 66 + 2 * i, #[trigger] name[i])
}

/// An attribute of a record: its length, its id and its content.
pub struct Part {
    pub len: int,
    pub id: u16,
    pub content: Content,
}

/// The parts lie one behind the other in `b[at..used]`, and nothing follows them.
pub open spec fn are_laid_out(b: Seq<u8>, at: int, used: int, parts: Seq<Part>) -> bool
    decreases parts.len(),
{
    if parts.len() == 0 {
        at + 16 > used || holds32(b, at, 0xFFFF_FFFF)
    } else {
        &&& 16 <= parts[0].len
        &&& at + parts[0].len <= used
        &&& is_attribute(b.subrange(at, at + parts[0].len), parts[0].id, parts[0].content)
        &&& are_laid_out(b, at + parts[0].len, used, parts.drop_first())
    }
}

/// What stands in the header of a record.
pub struct Header {
    pub sequence: u16,
    pub first: u16,
    pub flags: u16,
    pub used: u32,
    /// The number of the base record's reference; 0 where it is a base record.
    pub base: u64,
}

/// `b` is a record with the header and the parts.
pub open spec fn is_record(b: Seq<u8>, h: Header, parts: Seq<Part>) -> bool {
    &&& holds16(b, 16, h.sequence)
    &&& holds16(b, 20, h.first)
    &&& holds16(b, 22, h.flags)
    &&& holds32(b, 24, h.used)
    &&& holds64(b, 32, h.base)
    &&& 20 <= h.first < h.used <= b.len()
    &&& are_laid_out(b, h.first as int, h.used as int, parts)
}

// ---------------------------------------------------------------------------
// What a record means
// ---------------------------------------------------------------------------

/// The names among the parts, in order.
pub open spec fn names_of(parts: Seq<Part>) -> Seq<MftNameView>
    decreases parts.len(),
{
    if parts.len() == 0 {
        Seq::empty()
    } else {
        let before = names_of(parts.drop_last());
        match parts.last().content {
            Content::Name { parent, name, namespace } => before.push(
                MftNameView { parent, name: utf16_lossy(name), namespace },
            ),
            _ => before,
        }
    }
}

/// The size of the data stream that the part begins; 0 where it begins none.
pub open spec fn size_of(content: Content) -> nat {
    match content {
        Content::Inside { length } => length as nat,
        Content::Outside { lowest, size } => if lowest == 0 {
            size as nat
        } else {
            0
        },
        _ => 0,
    }
}

/// The size of all data streams.
pub open spec fn sizes_of(parts: Seq<Part>) -> nat
    decreases parts.len(),
{
    if parts.len() == 0 {
        0
    } else {
        sizes_of(parts.drop_last()) + size_of(parts.last().content)
    }
}

/// The last reparse tag.
pub open spec fn tag_of(parts: Seq<Part>) -> Option<u32>
    decreases parts.len(),
{
    if parts.len() == 0 {
        None
    } else {
        match parts.last().content {
            Content::Reparse { tag } => Some(tag),
            _ => tag_of(parts.drop_last()),
        }
    }
}

/// The part belongs to a data stream.
pub open spec fn is_data(content: Content) -> bool {
    content is Inside || content is Outside
}

/// No two parts of data streams have the same id.
pub open spec fn ids_apart(parts: Seq<Part>) -> bool {
    forall|i: int, j: int|
        0 <= i < j < parts.len() && is_data((#[trigger] parts[i]).content) && is_data(
            (#[trigger] parts[j]).content,
        ) ==> parts[i].id != parts[j].id
}

// ---------------------------------------------------------------------------
// Lemmas
// ---------------------------------------------------------------------------

pub proof fn lemma_le16(b: Seq<u8>, at: int, v: u16)
    requires
        holds16(b, at, v),
    ensures
        le(b, at, 2) == v,
{
    reveal_with_fuel(le, 3);
}

pub proof fn lemma_le32(b: Seq<u8>, at: int, v: u32)
    requires
        holds32(b, at, v),
    ensures
        le(b, at, 4) == v,
{
    reveal_with_fuel(le, 5);
}

pub proof fn lemma_le64(b: Seq<u8>, at: int, v: u64)
    requires
        holds64(b, at, v),
    ensures
        le(b, at, 8) == v,
{
    reveal_with_fuel(le, 9);
}

/// The attribute that the bytes stand for.
spec fn means(a: Attr, part: Part) -> bool {
    &&& is_attribute(a.bytes, part.id, part.content)
    &&& a.name.len() == 0
    &&& a.attribute_id == part.id
    &&& a == attr_of(a.bytes, a.name)
}

proof fn lemma_part(b: Seq<u8>, at: int, used: int, parts: Seq<Part>)
    requires
        0 <= at,
        used <= b.len(),
        parts.len() > 0,
        are_laid_out(b, at, used, parts),
    ensures
        ({
            let a = b.subrange(at, at + parts[0].len);
            &&& a.len() == parts[0].len
            &&& attr_name(a) == Some(Seq::<char>::empty())
            &&& means(attr_of(a, Seq::empty()), parts[0])
            &&& le(b, at, 4) != 0xFFFF_FFFF
            &&& le(b, at + 4, 4) == parts[0].len
        }),
{
    let a = b.subrange(at, at + parts[0].len);
    lemma_le32(a, 4, a.len() as u32);
    lemma_le_subrange(b, at, at + parts[0].len, 4, 4);
    lemma_le_subrange(b, at, at + parts[0].len, 0, 4);
    lemma_le16(a, 14, parts[0].id);
    lemma_type(a, parts[0].id, parts[0].content);
}

/// The type of the attribute.
spec fn type_of(content: Content) -> u32 {
    match content {
        Content::Name { .. } => 0x30,
        Content::Inside { .. } => 0x80,
        Content::Outside { .. } => 0x80,
        Content::Reparse { .. } => 0xC0,
        Content::List => 0x20,
        Content::Other { type_ } => type_,
    }
}

proof fn lemma_type(a: Seq<u8>, id: u16, content: Content)
    requires
        is_attribute(a, id, content),
    ensures
        le(a, 0, 4) == type_of(content),
        content is Name || content is Inside || content is Reparse ==> a[8] == 0,
        content is Outside || content is List ==> a[8] != 0,
        type_of(content) != 0xFFFF_FFFF,
{
    match content {
        Content::Name { parent, name, namespace } => {
            lemma_le32(a, 0, 0x30);
        },
        Content::Inside { .. } => {
            lemma_le32(a, 0, 0x80);
        },
        Content::Outside { .. } => {
            lemma_le32(a, 0, 0x80);
        },
        Content::Reparse { .. } => {
            lemma_le32(a, 0, 0xC0);
        },
        Content::List => {
            lemma_le32(a, 0, 0x20);
        },
        Content::Other { type_ } => {
            lemma_le32(a, 0, type_);
        },
    }
}

proof fn lemma_attrs(b: Seq<u8>, at: int, used: int, parts: Seq<Part>)
    requires
        0 <= at,
        used <= b.len(),
        are_laid_out(b, at, used, parts),
    ensures
        attrs_from(b, at, used) is Some,
        attrs_from(b, at, used)->0.len() == parts.len(),
        forall|i: int|
            0 <= i < parts.len() ==> means(#[trigger] attrs_from(b, at, used)->0[i], parts[i]),
    decreases parts.len(),
{
    if parts.len() == 0 {
        if at + 16 <= used {
            lemma_le32(b, at, 0xFFFF_FFFF);
        }
    } else {
        lemma_part(b, at, used, parts);
        let rest = parts.drop_first();
        let len = parts[0].len;
        lemma_attrs(b, at + len, used, rest);
        let all = attrs_from(b, at, used)->0;
        let tail = attrs_from(b, at + len, used)->0;
        let one = seq![attr_of(b.subrange(at, at + len), Seq::<char>::empty())];
        assert(all == one + tail);
        assert forall|i: int| 0 <= i < parts.len() implies means(#[trigger] all[i], parts[i]) by {
            if i > 0 {
                assert(all[i] == tail[i - 1]);
                assert(rest[i - 1] == parts[i]);
            }
        }
    }
}

proof fn lemma_name(a: Attr, part: Part)
    requires
        means(a, part),
        part.content is Name,
    ensures
        file_name_of(a) == Some(
            MftNameView {
                parent: part.content->Name_parent,
                name: utf16_lossy(part.content->Name_name),
                namespace: part.content->Name_namespace,
            },
        ),
{
    let (parent, name, namespace) = (
        part.content->Name_parent,
        part.content->Name_name,
        part.content->Name_namespace,
    );
    let x = a.bytes;
    let (at, len) = choose|at: u16, len: u32|
        is_name_value(x, at, len, parent, name, namespace);
    lemma_type(x, part.id, part.content);
    lemma_le32(x, 16, len);
    lemma_le16(x, 20, at);
    let raw = raw_ref(parent);
    assert(0 <= raw <= u64::MAX && raw % 0x1_0000_0000_0000 == parent.record_no && raw
        / 0x1_0000_0000_0000 == parent.sequence) by (nonlinear_arith)
        requires
            raw == parent.record_no + parent.sequence * 0x1_0000_0000_0000,
            0 <= parent.record_no < 0x1_0000_0000_0000,
            0 <= parent.sequence <= 0xFFFF,
    ;
    lemma_le64(x, at as int, raw as u64);
    assert(units(x, at + 66, name.len()) =~= name) by {
        assert forall|i: int| 0 <= i < name.len() implies units(x, at + 66, name.len())[i]
            == name[i] by {
            lemma_le16(x, at + 66 + 2 * i, name[i]);
        }
    }
}

proof fn lemma_stream(a: Attr, part: Part)
    requires
        means(a, part),
    ensures
        starts_stream(a) <==> part.content is Inside || (part.content matches Content::Outside {
            lowest,
            ..
        } && lowest == 0),
        starts_stream(a) ==> stream_size(a) == size_of(part.content),
        !starts_stream(a) ==> size_of(part.content) == 0,
        part.content is Reparse ==> reparse_tag_of(a) == Some(part.content->Reparse_tag),
        part.content is Outside ==> a.bytes.len() >= 64,
        part.content is Inside ==> a.bytes.len() >= 20,
        a.type_ == type_of(part.content),
        a.non_resident == (a.bytes[8] != 0),
{
    let x = a.bytes;
    lemma_type(x, part.id, part.content);
    match part.content {
        Content::Inside { length } => {
            lemma_le32(x, 16, length);
        },
        Content::Outside { lowest, size } => {
            lemma_le64(x, 16, lowest);
            lemma_le64(x, 48, size);
        },
        Content::Reparse { tag } => {
            let (at, len) = choose|at: u16, len: u32|
                #![auto]
                holds32(x, 0, 0xC0) && x[8] == 0 && holds32(x, 16, len) && holds16(x, 20, at) && len
                    >= 4 && at + len <= x.len() && holds32(x, at as int, tag);
            lemma_le32(x, 16, len);
            lemma_le16(x, 20, at);
            lemma_le32(x, at as int, tag);
        },
        _ => {},
    }
}

/// What the first `n` attributes come to.
proof fn lemma_contents(attrs: Seq<Attr>, parts: Seq<Part>, n: nat)
    requires
        attrs.len() == parts.len(),
        forall|i: int| 0 <= i < parts.len() ==> means(#[trigger] attrs[i], parts[i]),
        ids_apart(parts),
        n <= parts.len(),
    ensures
        names_in(attrs, n) == names_of(parts.take(n as int)),
        data_total(attrs, n) == sizes_of(parts.take(n as int)),
        reparse_in(attrs, n) == tag_of(parts.take(n as int)),
        forall|i: int| 0 <= i < n ==> !attr_fault(attrs, i),
    decreases n,
{
    if n > 0 {
        let m = (n - 1) as nat;
        lemma_contents(attrs, parts, m);
        let now = parts.take(n as int);
        assert(now.drop_last() =~= parts.take(m as int));
        assert(now.last() == parts[m as int]);
        let a = attrs[m as int];
        let part = parts[m as int];
        assert(means(a, part));
        lemma_stream(a, part);
        if part.content is Name {
            lemma_name(a, part);
        }
        assert(counts_stream(attrs, m as int) == starts_stream(a)) by {
            if starts_stream(a) {
                assert forall|j: int| 0 <= j < m implies !(#[trigger] starts_stream(attrs[j])
                    && same_stream(attrs[j], a)) by {
                    assert(means(attrs[j], parts[j]));
                    lemma_stream(attrs[j], parts[j]);
                    if starts_stream(attrs[j]) && same_stream(attrs[j], a) {
                        assert(is_data(parts[j].content) && is_data(part.content));
                    }
                }
            }
        }
        assert(!attr_fault(attrs, m as int));
    }
}

// ---------------------------------------------------------------------------
// Laws
// ---------------------------------------------------------------------------

/// What is laid out in a record that is in use is what is read from it: its names in
/// order, the sum of the sizes of its data streams whatever their number and size,
/// its reparse tag, and what its header says.
pub proof fn law_record_is_read_as_laid_out(
    raw: Seq<u8>,
    bps: int,
    b: Seq<u8>,
    no: u64,
    h: Header,
    parts: Seq<Part>,
)
    requires
        usable_bytes(raw, bps) == Some(b),
        is_record(b, h, parts),
        h.flags % 2 == 1,
        ids_apart(parts),
        sizes_of(parts) <= u64::MAX,
    ensures
        record_of(raw, no, bps) is Some,
        ({
            let r = record_of(raw, no, bps)->0;
            &&& r.id == (FileRef { record_no: no, sequence: h.sequence })
            &&& r.in_use
            &&& r.is_dir == (h.flags / 2 % 2 == 1)
            &&& r.names == names_of(parts)
            &&& r.logical_size == sizes_of(parts)
            &&& r.reparse_tag == tag_of(parts)
            &&& h.base == 0 ==> r.base_record is None
            &&& h.base != 0 ==> r.base_record == Some(
                FileRef {
                    record_no: h.base % 0x1_0000_0000_0000,
                    sequence: (h.base / 0x1_0000_0000_0000) as u16,
                },
            )
        }),
{
    lemma_header(b, h);
    lemma_le32(b, 24, h.used);
    lemma_le16(b, 20, h.first);
    lemma_attrs(b, h.first as int, h.used as int, parts);
    let attrs = attrs_of(b)->0;
    lemma_contents(attrs, parts, parts.len());
    assert(parts.take(parts.len() as int) =~= parts);
}

proof fn lemma_header(b: Seq<u8>, h: Header)
    requires
        holds16(b, 16, h.sequence),
        holds16(b, 22, h.flags),
        holds64(b, 32, h.base),
    ensures
        le(b, 16, 2) == h.sequence,
        le(b, 22, 2) == h.flags,
        le(b, 32, 8) == h.base,
{
    lemma_le16(b, 16, h.sequence);
    lemma_le16(b, 22, h.flags);
    lemma_le64(b, 32, h.base);
}

/// A record that is not in use yields nothing but its header.
pub proof fn law_unused_record_is_empty(raw: Seq<u8>, bps: int, b: Seq<u8>, no: u64, h: Header)
    requires
        usable_bytes(raw, bps) == Some(b),
        holds16(b, 16, h.sequence),
        holds16(b, 22, h.flags),
        holds64(b, 32, h.base),
        h.flags % 2 == 0,
    ensures
        record_of(raw, no, bps) is Some,
        ({
            let r = record_of(raw, no, bps)->0;
            !r.in_use && r.names.len() == 0 && r.logical_size == 0 && r.id == (FileRef {
                record_no: no,
                sequence: h.sequence,
            })
        }),
{
    lemma_header(b, h);
}

/// A file whose only data stream lies outside the record has the size that stands in
/// its attribute, whatever the size.
pub proof fn law_every_size_is_read(
    raw: Seq<u8>,
    bps: int,
    b: Seq<u8>,
    no: u64,
    h: Header,
    parts: Seq<Part>,
    i: int,
    v: u64,
)
    requires
        usable_bytes(raw, bps) == Some(b),
        is_record(b, h, parts),
        h.flags % 2 == 1,
        0 <= i < parts.len(),
        parts[i].content == (Content::Outside { lowest: 0, size: v }),
        forall|j: int| 0 <= j < parts.len() && j != i ==> !is_data((#[trigger] parts[j]).content),
    ensures
        record_of(raw, no, bps) matches Some(r) && r.logical_size == v,
{
    lemma_one_size(parts, i, v, parts.len());
    assert(parts.take(parts.len() as int) =~= parts);
    law_record_is_read_as_laid_out(raw, bps, b, no, h, parts);
}

proof fn lemma_one_size(parts: Seq<Part>, i: int, v: u64, n: nat)
    requires
        0 <= i < parts.len(),
        n <= parts.len(),
        parts[i].content == (Content::Outside { lowest: 0, size: v }),
        forall|j: int| 0 <= j < parts.len() && j != i ==> !is_data((#[trigger] parts[j]).content),
    ensures
        sizes_of(parts.take(n as int)) == if i < n {
            v as nat
        } else {
            0
        },
    decreases n,
{
    if n > 0 {
        lemma_one_size(parts, i, v, (n - 1) as nat);
        let now = parts.take(n as int);
        assert(now.drop_last() =~= parts.take(n - 1));
        assert(now.last() == parts[n - 1]);
    }
}

} // verus!
