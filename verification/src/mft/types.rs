//! The data that a file record yields.

use crate::error::{prefixed_text, IoFault};
use crate::text::{decimal, push_decimal};
use crate::win32::VolumeError;
use vstd::prelude::*;
use vstd::string::*;

verus! {

/// Reparse tag of a mount point (a directory junction).
pub const IO_REPARSE_TAG_MOUNT_POINT: u32 = 0xA000_0003;

/// Reparse tag of a symbolic link.
pub const IO_REPARSE_TAG_SYMLINK: u32 = 0xA000_000C;

/// A file reference: the record number and the sequence number of its slot.
#[derive(Debug, Clone, Copy, PartialEq, Eq, Hash, Structural)]
pub struct FileRef {
    pub record_no: u64,
    pub sequence: u16,
}

/// The reference that the raw 64-bit value `raw` stands for: the record number
/// is its low 48 bits, the sequence number its high 16 bits.
pub open spec fn file_ref(raw: nat) -> FileRef {
    FileRef {
        record_no: (raw % 0x1_0000_0000_0000) as u64,
        sequence: (raw / 0x1_0000_0000_0000) as u16,
    }
}

impl FileRef {
    /// Splits a raw 64-bit file reference.
    pub fn from_raw(raw: u64) -> (r: Self)
        ensures
            r == file_ref(raw as nat),
            r.record_no == raw % 0x1_0000_0000_0000,
            r.sequence == raw / 0x1_0000_0000_0000,
    {
        FileRef {
            record_no: raw % 0x1_0000_0000_0000,
            sequence: (raw / 0x1_0000_0000_0000) as u16,
        }
    }

    /// The record number and the sequence number, with a colon between them.
    pub fn describe(&self) -> (r: String)
        ensures
            r@ == decimal(self.record_no as nat).push(':') + decimal(self.sequence as nat),
    {
        let mut out = String::new();
        push_decimal(&mut out, self.record_no);
        assert(out@ =~= decimal(self.record_no as nat));
        out.push(':');
        push_decimal(&mut out, self.sequence as u64);
        out
    }
}

/// One `$FILE_NAME` entry.
#[derive(Debug, Clone, PartialEq, Eq)]
pub struct MftName {
    pub parent: FileRef,
    pub name: String,
    pub namespace: u8,
}

/// Model of an [`MftName`].
pub struct MftNameView {
    pub parent: FileRef,
    pub name: Seq<char>,
    pub namespace: u8,
}

impl View for MftName {
    type V = MftNameView;

    open spec fn view(&self) -> MftNameView {
        MftNameView { parent: self.parent, name: self.name@, namespace: self.namespace }
    }
}

impl MftName {
    /// A copy of this entry.
    pub fn copy(&self) -> (r: Self)
        ensures
            r@ == self@,
    {
        MftName { parent: self.parent, name: self.name.clone(), namespace: self.namespace }
    }
}

/// The models of a sequence of names.
pub open spec fn names_view(names: Seq<MftName>) -> Seq<MftNameView> {
    Seq::new(names.len(), |i: int| names[i]@)
}

/// What one file record holds.
#[derive(Debug, Clone, PartialEq, Eq)]
pub struct MftRecord {
    /// The record's own reference.
    pub id: FileRef,
    /// The base record, for an extension record; `None` for a base record.
    pub base_record: Option<FileRef>,
    /// Every `$FILE_NAME` entry, of any namespace.
    pub names: Vec<MftName>,
    /// Sum of the logical sizes of the `$DATA` streams that start in this record.
    pub logical_size: u64,
    pub is_dir: bool,
    pub in_use: bool,
    /// Tag of the `$REPARSE_POINT` attribute, if there is one.
    pub reparse_tag: Option<u32>,
    /// Whether the record carries a non-resident `$ATTRIBUTE_LIST`.
    pub has_nonresident_attr_list: bool,
}

/// Model of an [`MftRecord`].
pub struct MftRecordView {
    pub id: FileRef,
    pub base_record: Option<FileRef>,
    pub names: Seq<MftNameView>,
    pub logical_size: u64,
    pub is_dir: bool,
    pub in_use: bool,
    pub reparse_tag: Option<u32>,
    pub has_nonresident_attr_list: bool,
}

impl View for MftRecord {
    type V = MftRecordView;

    open spec fn view(&self) -> MftRecordView {
        MftRecordView {
            id: self.id,
            base_record: self.base_record,
            names: names_view(self.names@),
            logical_size: self.logical_size,
            is_dir: self.is_dir,
            in_use: self.in_use,
            reparse_tag: self.reparse_tag,
            has_nonresident_attr_list: self.has_nonresident_attr_list,
        }
    }
}

/// A run of consecutive clusters. A sparse run has no place on the volume and
/// carries `start_lcn == 0`.
#[derive(Debug, Clone, Copy, PartialEq, Eq, Structural)]
pub struct DataRun {
    pub start_lcn: i64,
    pub length_clusters: u64,
}

/// Sum and number of the files directly in a directory.
#[derive(Debug, Clone, Copy, Default, PartialEq, Eq)]
pub struct DirectFileStats {
    pub size_bytes: u64,
    pub file_count: u64,
}

/// One entry of an `$ATTRIBUTE_LIST`.
#[derive(Debug, Clone, PartialEq, Eq)]
pub struct AttributeListEntry {
    pub attribute_type: u32,
    pub attribute_id: u16,
    pub attribute_name: String,
    pub lowest_vcn: u64,
    /// The record that holds the attribute.
    pub base_reference: FileRef,
}

/// Model of an [`AttributeListEntry`].
pub struct AttributeListEntryView {
    pub attribute_type: u32,
    pub attribute_id: u16,
    pub attribute_name: Seq<char>,
    pub lowest_vcn: u64,
    pub base_reference: FileRef,
}

impl View for AttributeListEntry {
    type V = AttributeListEntryView;

    open spec fn view(&self) -> AttributeListEntryView {
        AttributeListEntryView {
            attribute_type: self.attribute_type,
            attribute_id: self.attribute_id,
            attribute_name: self.attribute_name@,
            lowest_vcn: self.lowest_vcn,
            base_reference: self.base_reference,
        }
    }
}

/// Why parsing or enumerating the MFT failed.
#[derive(Debug)]
pub enum MftError {
    /// Reading the volume needs administrator rights.
    NeedElevation,
    UnsupportedFilesystem { actual: String },
    /// The NTFS version is not 3.1.
    UnsupportedNtfsVersion { major: u16, minor: u16 },
    /// The volume geometry makes no sense.
    InvalidVolumeData,
    /// The root directory's record is missing.
    RootRecordMissing,
    /// Too many records were unreadable.
    ExcessiveRecordErrors { skipped: u64, scanned: u64 },
    /// One record is damaged.
    BadRecord { ref_no: u64 },
    Io(IoFault),
    Cancelled,
}

impl MftError {
    /// The text of the error.
    pub open spec fn text(&self) -> Seq<char> {
        match self {
            MftError::NeedElevation => "需要管理员权限读取 MFT"@,
            MftError::UnsupportedFilesystem { actual } => {
                "不支持的文件系统（仅支持 NTFS，实际为 "@ + actual@ + "）"@
            },
            MftError::UnsupportedNtfsVersion { major, minor } => {
                "不支持的 NTFS 版本（仅支持 3.1，实际为 "@ + decimal(*major as nat) + "."@ + decimal(
                    *minor as nat,
                ) + "）"@
            },
            MftError::InvalidVolumeData => "卷数据缓冲不合法或被截断"@,
            MftError::RootRecordMissing => "根目录记录（record 5）缺失或不可解析"@,
            MftError::ExcessiveRecordErrors { skipped, scanned } => {
                "MFT 枚举错误过多（"@ + decimal(*skipped as nat) + "/"@ + decimal(*scanned as nat)
                    + "），已超过门槛"@
            },
            MftError::BadRecord { ref_no } => "MFT 记录 "@ + decimal(*ref_no as nat)
                + " 损坏或不可解析"@,
            MftError::Io(f) => "I/O 错误: "@ + f.message@,
            MftError::Cancelled => "用户取消"@,
        }
    }

    /// The text of the error, as it is shown to the user.
    pub fn describe(&self) -> (r: String)
        ensures
            r@ == self.text(),
    {
        match self {
            MftError::NeedElevation => String::from_str("需要管理员权限读取 MFT"),
            MftError::UnsupportedFilesystem { actual } => {
                let mut out = prefixed_text(
                    "不支持的文件系统（仅支持 NTFS，实际为 ",
                    actual.as_str(),
                );
                out.append("）");
                out
            },
            MftError::UnsupportedNtfsVersion { major, minor } => {
                let mut out = String::from_str("不支持的 NTFS 版本（仅支持 3.1，实际为 ");
                push_decimal(&mut out, *major as u64);
                out.append(".");
                push_decimal(&mut out, *minor as u64);
                out.append("）");
                out
            },
            MftError::InvalidVolumeData => String::from_str("卷数据缓冲不合法或被截断"),
            MftError::RootRecordMissing => String::from_str("根目录记录（record 5）缺失或不可解析"),
            MftError::ExcessiveRecordErrors { skipped, scanned } => {
                let mut out = String::from_str("MFT 枚举错误过多（");
                push_decimal(&mut out, *skipped);
                out.append("/");
                push_decimal(&mut out, *scanned);
                out.append("），已超过门槛");
                out
            },
            MftError::BadRecord { ref_no } => {
                let mut out = String::from_str("MFT 记录 ");
                push_decimal(&mut out, *ref_no);
                out.append(" 损坏或不可解析");
                out
            },
            MftError::Io(f) => prefixed_text("I/O 错误: ", f.message.as_str()),
            MftError::Cancelled => String::from_str("用户取消"),
        }
    }

    /// The error of the MFT for an error of the volume.
    pub fn from_volume(e: VolumeError) -> (r: Self)
        ensures
            match e {
                VolumeError::AccessDenied => r == MftError::NeedElevation,
                VolumeError::UnsupportedFilesystem { actual } => r
                    == (MftError::UnsupportedFilesystem { actual }),
                VolumeError::InvalidVolumeData => r == MftError::InvalidVolumeData,
                VolumeError::Io { code, operation } => r matches MftError::Io(f) && f.code is None
                    && f.message@ == "Win32 I/O error: operation="@ + operation@ + " code="@
                    + decimal(code as nat),
            },
    {
        match e {
            VolumeError::AccessDenied => MftError::NeedElevation,
            VolumeError::UnsupportedFilesystem { actual } => MftError::UnsupportedFilesystem {
                actual,
            },
            VolumeError::InvalidVolumeData => MftError::InvalidVolumeData,
            VolumeError::Io { code, operation } => {
                let mut message = prefixed_text("Win32 I/O error: operation=", operation.as_str());
                message.append(" code=");
                push_decimal(&mut message, code as u64);
                MftError::Io(IoFault { code: None, message })
            },
        }
    }
}

/// Splitting a reference loses nothing.
pub proof fn law_reference_keeps_its_bits(raw: u64)
    ensures
        file_ref(raw as nat).record_no + file_ref(raw as nat).sequence * 0x1_0000_0000_0000 == raw,
        file_ref(raw as nat).record_no < 0x1_0000_0000_0000,
{
    assert(raw / 0x1_0000_0000_0000 <= 0xFFFF);
}

} // verus!
