use dayu_disk_manager::error::IoFault;
use dayu_disk_manager::mft::attributes::{
    ATTR_TYPE_END_MARKER, FILE_BYTES_IN_USE_OFFSET, FILE_FIRST_ATTRIBUTE_OFFSET,
};
use dayu_disk_manager::mft::bytes::{read_u16_at, read_u32_at, read_u64_at};
use dayu_disk_manager::mft::fixup::{
    FILE_SIGNATURE, FILE_USA_COUNT_OFFSET, FILE_USA_OFFSET_OFFSET,
};
use dayu_disk_manager::mft::record::{
    ATTR_TYPE_ATTRIBUTE_LIST, ATTR_TYPE_DATA, ATTR_TYPE_FILE_NAME, ATTR_TYPE_REPARSE_POINT,
    FILE_BASE_REFERENCE_OFFSET, FILE_FLAGS_OFFSET, FILE_SEQUENCE_OFFSET, NAMESPACE_DOS,
    NAMESPACE_POSIX, NAMESPACE_WIN32, NAMESPACE_WIN32_AND_DOS,
};
use dayu_disk_manager::mft::runs::sign_extend;
use dayu_disk_manager::mft::{
    apply_usa_fixup, decode_data_runs, enumerate_mft, extract_mft_data_runs, is_ioctl_fixed_record,
    parse_attribute_list_entries, parse_record, select_effective_names, validate_volume_data,
    FileRef, LoadStep, MftError, MftFileReader, MftLoader, MftName, MftRecord, RecordReader,
};
use dayu_disk_manager::win32::{RawFileRecord, VolumeData, VolumeError};
use std::cell::{Cell, RefCell};
use std::collections::HashMap;

const FILE_FLAG_IN_USE: u16 = 0x0001;
const FILE_FLAG_DIRECTORY: u16 = 0x0002;
const ATTR_NONRESIDENT_HEADER_LEN: usize = 0x40;

#[test]
fn file_header_constants_match_ntfs_spec() {
    assert_eq!(FILE_USA_OFFSET_OFFSET, 0x04);
    assert_eq!(FILE_USA_COUNT_OFFSET, 0x06);
    assert_eq!(FILE_SEQUENCE_OFFSET, 0x10);
    assert_eq!(FILE_FIRST_ATTRIBUTE_OFFSET, 0x14);
    assert_eq!(FILE_FLAGS_OFFSET, 0x16);
    assert_eq!(FILE_BYTES_IN_USE_OFFSET, 0x18);
    assert_eq!(FILE_BASE_REFERENCE_OFFSET, 0x20);
    assert_eq!(FILE_SIGNATURE, *b"FILE");
    assert_eq!(ATTR_TYPE_END_MARKER, 0xFFFF_FFFF);
    assert_eq!(ATTR_TYPE_ATTRIBUTE_LIST, 0x20);
    assert_eq!(ATTR_TYPE_FILE_NAME, 0x30);
    assert_eq!(ATTR_TYPE_DATA, 0x80);
    assert_eq!(ATTR_TYPE_REPARSE_POINT, 0xC0);
}

#[test]
fn file_ref_from_raw_splits_record_and_sequence() {
    let raw = (1u64 << 48) | 42u64;
    let fr = FileRef::from_raw(raw);
    assert_eq!(fr.record_no, 42);
    assert_eq!(fr.sequence, 1);
}

#[test]
fn file_ref_from_raw_record_zero() {
    let fr = FileRef::from_raw(0);
    assert_eq!(fr.record_no, 0);
    assert_eq!(fr.sequence, 0);
}

#[test]
fn file_ref_from_raw_max_record() {
    let raw = 0x0000_FFFF_FFFF_FFFF;
    let fr = FileRef::from_raw(raw);
    assert_eq!(fr.record_no, 0xFFFF_FFFF_FFFF);
    assert_eq!(fr.sequence, 0);
}

fn build_valid_record_bytes(record_len: usize, bytes_per_sector: usize) -> Vec<u8> {
    assert_eq!(record_len % bytes_per_sector, 0);
    let mut buf = vec![0u8; record_len];
    buf[0..4].copy_from_slice(b"FILE");
    let usa_offset = 0x30usize;
    let usa_count = record_len / bytes_per_sector + 1;
    buf[0x04..0x06].copy_from_slice(&(usa_offset as u16).to_le_bytes());
    buf[0x06..0x08].copy_from_slice(&(usa_count as u16).to_le_bytes());
    buf[0x10..0x12].copy_from_slice(&1u16.to_le_bytes());
    buf[0x14..0x16].copy_from_slice(&(usa_offset as u16).to_le_bytes());
    buf[0x16..0x18].copy_from_slice(&0x01u16.to_le_bytes());
    buf[0x18..0x1C].copy_from_slice(&(record_len as u32).to_le_bytes());
    let usn: u16 = 0x1234;
    buf[usa_offset..usa_offset + 2].copy_from_slice(&usn.to_le_bytes());
    for i in 1..usa_count {
        let sector_end = i * bytes_per_sector - 2;
        let original: u16 = 0xAA00 + i as u16;
        buf[sector_end..sector_end + 2].copy_from_slice(&usn.to_le_bytes());
        let usa_entry_offset = usa_offset + i * 2;
        buf[usa_entry_offset..usa_entry_offset + 2]
            .copy_from_slice(&original.to_le_bytes());
    }
    buf
}

#[test]
fn usa_fixup_valid_record_restores_sector_tails() {
    let bytes = build_valid_record_bytes(1024, 512);
    let fixed = apply_usa_fixup(&bytes, 0, 512).unwrap();
    let tail1 = u16::from_le_bytes([fixed[510], fixed[511]]);
    assert_eq!(tail1, 0xAA01);
    let tail2 = u16::from_le_bytes([fixed[1022], fixed[1023]]);
    assert_eq!(tail2, 0xAA02);
}

#[test]
fn usa_fixup_bad_signature_returns_bad_record() {
    let mut bytes = build_valid_record_bytes(1024, 512);
    bytes[0..4].copy_from_slice(b"BAAD");
    let err = apply_usa_fixup(&bytes, 7, 512).unwrap_err();
    assert!(matches!(err, MftError::BadRecord { ref_no: 7 }));
}

#[test]
fn usa_fixup_wrong_usn_returns_bad_record() {
    let mut bytes = build_valid_record_bytes(1024, 512);
    bytes[510] = 0x00;
    let err = apply_usa_fixup(&bytes, 0, 512).unwrap_err();
    assert!(matches!(err, MftError::BadRecord { ref_no: 0 }));
}

#[test]
fn usa_fixup_wrong_count_returns_bad_record() {
    let mut bytes = build_valid_record_bytes(1024, 512);
    bytes[0x06..0x08].copy_from_slice(&5u16.to_le_bytes());
    let err = apply_usa_fixup(&bytes, 0, 512).unwrap_err();
    assert!(matches!(err, MftError::BadRecord { ref_no: 0 }));
}

#[test]
fn usa_fixup_count_matches_sector_size_ratio() {
    let bytes = build_valid_record_bytes(1024, 512);
    let fixed = apply_usa_fixup(&bytes, 0, 512).unwrap();
    let count = u16::from_le_bytes([fixed[0x06], fixed[0x07]]);
    assert_eq!(count, 3);
}

#[test]
fn usa_fixup_4096_record_with_512_sector() {
    let bytes = build_valid_record_bytes(4096, 512);
    let fixed = apply_usa_fixup(&bytes, 0, 512).unwrap();
    let count = u16::from_le_bytes([fixed[0x06], fixed[0x07]]);
    assert_eq!(count, 9);
}

#[test]
fn usa_fixup_truncated_buffer_returns_bad_record() {
    let bytes = vec![0u8; 4];
    let err = apply_usa_fixup(&bytes, 0, 512).unwrap_err();
    assert!(matches!(err, MftError::BadRecord { ref_no: 0 }));
}

#[test]
fn decode_data_runs_single_run() {
    let runs_bytes = [0x11, 64, 100, 0x00];
    let runs = decode_data_runs(&runs_bytes).unwrap();
    assert_eq!(runs.len(), 1);
    assert_eq!(runs[0].start_lcn, 100);
    assert_eq!(runs[0].length_clusters, 64);
}

#[test]
fn decode_data_runs_two_runs_accumulates_offset() {
    let runs_bytes = [0x11, 10, 100, 0x11, 20, 50, 0x00];
    let runs = decode_data_runs(&runs_bytes).unwrap();
    assert_eq!(runs.len(), 2);
    assert_eq!(runs[0].start_lcn, 100);
    assert_eq!(runs[0].length_clusters, 10);
    assert_eq!(runs[1].start_lcn, 160);
    assert_eq!(runs[1].length_clusters, 20);
}

#[test]
fn decode_data_runs_negative_offset() {
    let neg_off_bytes = (-100i16).to_le_bytes();
    let runs_bytes = [
        0x21, 10, 200, 0,
        0x21, 5, neg_off_bytes[0], neg_off_bytes[1],
        0x00,
    ];
    let runs = decode_data_runs(&runs_bytes).unwrap();
    assert_eq!(runs.len(), 2);
    assert_eq!(runs[0].start_lcn, 200);
    assert_eq!(runs[1].start_lcn, 110);
}

#[test]
fn decode_data_runs_empty_on_immediate_zero() {
    let runs = decode_data_runs(&[0x00]).unwrap();
    assert!(runs.is_empty());
}

#[test]
fn decode_data_runs_zero_length_size_returns_error() {
    let runs_bytes = [0x10, 0x00];
    let err = decode_data_runs(&runs_bytes).unwrap_err();
    assert!(matches!(err, MftError::BadRecord { ref_no: 0 }));
}

#[test]
fn decode_data_runs_truncated_length_field_returns_error() {
    let runs_bytes = [0x21, 5];
    let err = decode_data_runs(&runs_bytes).unwrap_err();
    assert!(matches!(err, MftError::BadRecord { ref_no: 0 }));
}

#[test]
fn decode_data_runs_sparse_extent() {
    let runs_bytes = [
        0x21, 10, 100, 0,
        0x01, 5,
        0x21, 3, 200, 0,
        0x00,
    ];
    let runs = decode_data_runs(&runs_bytes).unwrap();
    assert_eq!(runs.len(), 3);
    assert_eq!(runs[0].start_lcn, 100);
    assert_eq!(runs[0].length_clusters, 10);
    assert_eq!(runs[1].start_lcn, 0);
    assert_eq!(runs[1].length_clusters, 5);
    assert_eq!(runs[2].start_lcn, 310);
}

#[test]
fn decode_data_runs_sparse_has_zero_lcn() {
    let runs_bytes = [0x01, 7, 0x00];
    let runs = decode_data_runs(&runs_bytes).unwrap();
    assert_eq!(runs.len(), 1);
    assert_eq!(runs[0].start_lcn, 0);
    assert_eq!(runs[0].length_clusters, 7);
}

#[test]
fn decode_data_runs_mixed_allocated_and_sparse() {
    let runs_bytes = [
        0x11, 10, 100,
        0x01, 5,
        0x11, 3, 50,
        0x00,
    ];
    let runs = decode_data_runs(&runs_bytes).unwrap();
    assert_eq!(runs.len(), 3);
    assert_eq!(runs[0].start_lcn, 100);
    assert_eq!(runs[0].length_clusters, 10);
    assert_eq!(runs[1].start_lcn, 0);
    assert_eq!(runs[1].length_clusters, 5);
    assert_eq!(runs[2].start_lcn, 160);
    assert_eq!(runs[2].length_clusters, 3);
}

#[test]
fn sign_extend_positive() {
    assert_eq!(sign_extend(100, 1), 100);
    assert_eq!(sign_extend(1000, 2), 1000);
}

#[test]
fn sign_extend_negative_one_byte() {
    assert_eq!(sign_extend(0xFF, 1), -1);
}

#[test]
fn sign_extend_negative_two_bytes() {
    assert_eq!(sign_extend(0xFF_FF, 2), -1);
    assert_eq!(sign_extend(0x80_00, 2), -32768);
}

fn mk_name(parent_rec: u64, parent_seq: u16, ns: u8, name: &str) -> MftName {
    MftName {
        parent: FileRef {
            record_no: parent_rec,
            sequence: parent_seq,
        },
        name: name.to_string(),
        namespace: ns,
    }
}

#[test]
fn select_names_prefers_win32_namespace_1() {
    let names = vec![
        mk_name(5, 5, NAMESPACE_DOS, "LONGFI~1.TXT"),
        mk_name(5, 5, NAMESPACE_WIN32, "longfile.txt"),
    ];
    let sel = select_effective_names(&names);
    assert_eq!(sel.len(), 1);
    assert_eq!(sel[0].name, "longfile.txt");
    assert_eq!(sel[0].namespace, NAMESPACE_WIN32);
}

#[test]
fn select_names_keeps_win32_and_dos_namespace_3() {
    let names = vec![
        mk_name(5, 5, NAMESPACE_WIN32_AND_DOS, "regular.txt"),
        mk_name(5, 5, NAMESPACE_DOS, "REGULA~1.TXT"),
    ];
    let sel = select_effective_names(&names);
    assert_eq!(sel.len(), 1);
    assert_eq!(sel[0].namespace, NAMESPACE_WIN32_AND_DOS);
}

#[test]
fn select_names_falls_back_to_posix_when_no_win32() {
    let names = vec![
        mk_name(5, 5, NAMESPACE_POSIX, "posix_name"),
        mk_name(5, 5, NAMESPACE_DOS, "POSIX_~1"),
    ];
    let sel = select_effective_names(&names);
    assert_eq!(sel.len(), 1);
    assert_eq!(sel[0].namespace, NAMESPACE_POSIX);
}

#[test]
fn select_names_pure_dos_returns_empty() {
    let names = vec![mk_name(5, 5, NAMESPACE_DOS, "SHORT~1.TXT")];
    let sel = select_effective_names(&names);
    assert!(sel.is_empty());
}

#[test]
fn select_names_preserves_multiple_hardlinks() {
    let names = vec![
        mk_name(39, 1, NAMESPACE_WIN32, "alpha.txt"),
        mk_name(42, 1, NAMESPACE_WIN32, "hardlink_to_alpha.txt"),
    ];
    let sel = select_effective_names(&names);
    assert_eq!(sel.len(), 2);
}

#[test]
fn mft_error_display_bad_record_includes_ref() {
    let err = MftError::BadRecord { ref_no: 42 };
    let msg = err.describe();
    assert!(msg.contains("42"));
}

#[test]
fn mft_error_display_unsupported_ntfs_version() {
    let err = MftError::UnsupportedNtfsVersion {
        major: 3,
        minor: 0,
    };
    let msg = err.describe();
    assert!(msg.contains("3.0"));
}

#[test]
fn mft_error_from_io_error() {
    let err = MftError::Io(IoFault { code: None, message: "test".into() });
    assert!(matches!(err, MftError::Io(_)));
}

fn build_minimal_file_record(
    record_no: u64,
    parent_ref: u64,
    name: &str,
    data_len: u32,
) -> Vec<u8> {
    let record_len = 1024;
    let bytes_per_sector = 512;
    let usa_offset = 0x30usize;
    let first_attr = 0x38usize;

    let mut buf = vec![0u8; record_len];
    buf[0..4].copy_from_slice(b"FILE");
    buf[0x04..0x06].copy_from_slice(&(usa_offset as u16).to_le_bytes());
    buf[0x06..0x08].copy_from_slice(&3u16.to_le_bytes());
    buf[0x10..0x12].copy_from_slice(&1u16.to_le_bytes());
    buf[0x14..0x16].copy_from_slice(&(first_attr as u16).to_le_bytes());
    buf[0x16..0x18].copy_from_slice(&0x01u16.to_le_bytes());
    buf[0x18..0x1C].copy_from_slice(&(record_len as u32).to_le_bytes());
    let name_utf16: Vec<u16> = name.encode_utf16().collect();
    let name_bytes: Vec<u8> = name_utf16
        .iter()
        .flat_map(|&w| w.to_le_bytes())
        .collect();
    let fn_value_len = 0x42 + name_bytes.len();
    let fn_attr_len = 0x18 + fn_value_len;
    let fn_attr_len_padded = (fn_attr_len + 7) & !7;

    let mut off = first_attr;
    buf[off..off + 4].copy_from_slice(&0x30u32.to_le_bytes());
    buf[off + 4..off + 8].copy_from_slice(&(fn_attr_len_padded as u32).to_le_bytes());
    buf[off + 8] = 0;
    buf[off + 9] = 0;
    buf[off + 0x0A..off + 0x0C].copy_from_slice(&0x18u16.to_le_bytes());
    buf[off + 0x0E..off + 0x10].copy_from_slice(&0u16.to_le_bytes());
    buf[off + 0x10..off + 0x14].copy_from_slice(&(fn_value_len as u32).to_le_bytes());
    buf[off + 0x14..off + 0x16].copy_from_slice(&0x18u16.to_le_bytes());
    let val_off = off + 0x18;
    buf[val_off..val_off + 8].copy_from_slice(&parent_ref.to_le_bytes());
    buf[val_off + 0x40] = name_utf16.len() as u8;
    buf[val_off + 0x41] = NAMESPACE_WIN32;
    buf[val_off + 0x42..val_off + 0x42 + name_bytes.len()].copy_from_slice(&name_bytes);

    off += fn_attr_len_padded;
    let data_attr_len = 0x18 + data_len as usize;
    let data_attr_len_padded = (data_attr_len + 7) & !7;
    buf[off..off + 4].copy_from_slice(&0x80u32.to_le_bytes());
    buf[off + 4..off + 8].copy_from_slice(&(data_attr_len_padded as u32).to_le_bytes());
    buf[off + 8] = 0;
    buf[off + 9] = 0;
    buf[off + 0x0A..off + 0x0C].copy_from_slice(&0x18u16.to_le_bytes());
    buf[off + 0x0E..off + 0x10].copy_from_slice(&1u16.to_le_bytes());
    buf[off + 0x10..off + 0x14].copy_from_slice(&data_len.to_le_bytes());
    buf[off + 0x14..off + 0x16].copy_from_slice(&0x18u16.to_le_bytes());
    off += data_attr_len_padded;
    buf[off..off + 4].copy_from_slice(&0xFFFF_FFFFu32.to_le_bytes());
    buf[off + 4..off + 8].copy_from_slice(&0u32.to_le_bytes());
    let usn: u16 = 0x4321;
    buf[usa_offset..usa_offset + 2].copy_from_slice(&usn.to_le_bytes());
    for i in 1..3 {
        let sector_end = i * bytes_per_sector - 2;
        let original = u16::from_le_bytes([buf[sector_end], buf[sector_end + 1]]);
        buf[usa_offset + i * 2..usa_offset + i * 2 + 2]
            .copy_from_slice(&original.to_le_bytes());
        buf[sector_end..sector_end + 2].copy_from_slice(&usn.to_le_bytes());
    }
    let _ = record_no;
    buf
}

#[test]
fn parse_record_minimal_file_returns_correct_fields() {
    let parent_ref = (5u64 << 48) | 5u64;
    let bytes = build_minimal_file_record(42, parent_ref, "hello.txt", 22);
    let rec = parse_record(&bytes, 42, 512).unwrap();
    assert_eq_file_record(&rec, 42, 1, false, false, true);
    assert_eq!(rec.logical_size, 22);
    assert_eq!(rec.names.len(), 1);
    assert_eq!(rec.names[0].name, "hello.txt");
    assert_eq!(rec.names[0].namespace, NAMESPACE_WIN32);
    assert_eq!(rec.names[0].parent.record_no, 5);
    assert_eq!(rec.names[0].parent.sequence, 5);
    assert!(rec.reparse_tag.is_none());
}

#[test]
fn parse_record_not_in_use_returns_empty_names() {
    let parent_ref = (5u64 << 48) | 5u64;
    let mut bytes = build_minimal_file_record(42, parent_ref, "hello.txt", 22);
    let flags = u16::from_le_bytes([bytes[0x16], bytes[0x17]]);
    let flags = flags & !FILE_FLAG_IN_USE;
    bytes[0x16..0x18].copy_from_slice(&flags.to_le_bytes());
    let rec = parse_record(&bytes, 42, 512).unwrap();
    assert!(rec.names.is_empty());
    assert_eq!(rec.logical_size, 0);
    assert!(!rec.in_use);
}

#[test]
fn parse_record_bad_signature_returns_bad_record() {
    let mut bytes = build_minimal_file_record(42, 0, "x", 1);
    bytes[0..4].copy_from_slice(b"BAAD");
    let err = parse_record(&bytes, 42, 512).unwrap_err();
    assert!(matches!(err, MftError::BadRecord { ref_no: 42 }));
}

#[test]
fn parse_record_extension_record_has_base() {
    let mut bytes = build_minimal_file_record(49, 0, "stream1", 102);
    let base_ref = (1u64 << 48) | 41u64;
    bytes[0x20..0x28].copy_from_slice(&base_ref.to_le_bytes());
    let rec = parse_record(&bytes, 49, 512).unwrap();
    assert!(rec.base_record.is_some());
    let base = rec.base_record.unwrap();
    assert_eq!(base.record_no, 41);
    assert_eq!(base.sequence, 1);
}

#[test]
fn parse_record_zero_attr_length_returns_bad_record() {
    let mut bytes = build_minimal_file_record(42, 0, "x", 1);
    let first_attr = u16::from_le_bytes([bytes[0x14], bytes[0x15]]) as usize;
    bytes[first_attr + 4..first_attr + 8].copy_from_slice(&0u32.to_le_bytes());
    let err = parse_record(&bytes, 42, 512).unwrap_err();
    assert!(matches!(err, MftError::BadRecord { ref_no: 42 }));
}

#[test]
fn parse_record_attr_length_below_min_header_returns_bad_record() {
    let mut bytes = build_minimal_file_record(42, 0, "x", 1);
    let first_attr = u16::from_le_bytes([bytes[0x14], bytes[0x15]]) as usize;
    bytes[first_attr + 4..first_attr + 8].copy_from_slice(&8u32.to_le_bytes());
    let err = parse_record(&bytes, 42, 512).unwrap_err();
    assert!(matches!(err, MftError::BadRecord { ref_no: 42 }));
}

#[test]
fn parse_record_attr_length_beyond_bytes_in_use_returns_bad_record() {
    let mut bytes = build_minimal_file_record(42, 0, "x", 1);
    let first_attr = u16::from_le_bytes([bytes[0x14], bytes[0x15]]) as usize;
    bytes[first_attr + 4..first_attr + 8].copy_from_slice(&0xFFFFu32.to_le_bytes());
    let err = parse_record(&bytes, 42, 512).unwrap_err();
    assert!(matches!(err, MftError::BadRecord { ref_no: 42 }));
}

#[test]
fn parse_record_truncated_buffer_returns_bad_record() {
    let bytes = vec![0u8; 32];
    let err = parse_record(&bytes, 42, 512).unwrap_err();
    assert!(matches!(err, MftError::BadRecord { ref_no: 42 }));
}

fn build_ioctl_fixed_record(record_len: usize, bytes_per_sector: usize) -> Vec<u8> {
    assert_eq!(record_len % bytes_per_sector, 0);
    let mut buf = vec![0u8; record_len];
    buf[0..4].copy_from_slice(b"FILE");
    let usa_offset = 0x30usize;
    let first_attr = 0x38usize;
    let usa_count = record_len / bytes_per_sector + 1;
    buf[0x04..0x06].copy_from_slice(&(usa_offset as u16).to_le_bytes());
    buf[0x06..0x08].copy_from_slice(&(usa_count as u16).to_le_bytes());
    buf[0x10..0x12].copy_from_slice(&1u16.to_le_bytes());
    buf[0x14..0x16].copy_from_slice(&(first_attr as u16).to_le_bytes());
    buf[0x16..0x18].copy_from_slice(&0x01u16.to_le_bytes());
    buf[0x18..0x1C].copy_from_slice(&(record_len as u32).to_le_bytes());
    for i in 1..usa_count {
        let sector_end = i * bytes_per_sector - 2;
        let app_data: u16 = 0xBB00 + i as u16;
        buf[sector_end..sector_end + 2].copy_from_slice(&app_data.to_le_bytes());
    }
    buf[first_attr..first_attr + 4].copy_from_slice(&0xFFFF_FFFFu32.to_le_bytes());
    buf
}

#[test]
fn parse_record_ioctl_fixed_zero_usa_array_degrades_safely() {
    let bytes = build_ioctl_fixed_record(1024, 512);
    let rec = parse_record(&bytes, 99, 512).unwrap();
    assert_eq!(rec.id.record_no, 99);
    assert_eq!(rec.id.sequence, 1);
    assert!(rec.in_use);
    assert!(!rec.is_dir);
}

#[test]
fn parse_record_real_corruption_with_nonzero_usa_rejected() {
    let mut bytes = build_ioctl_fixed_record(1024, 512);
    let usa_offset = 0x30usize;
    bytes[usa_offset + 2..usa_offset + 4].copy_from_slice(&0xDEADu16.to_le_bytes());
    let err = parse_record(&bytes, 99, 512).unwrap_err();
    assert!(
        matches!(err, MftError::BadRecord { ref_no: 99 }));
}

#[test]
fn is_ioctl_fixed_record_allows_zero_usa_array() {
    let bytes = build_ioctl_fixed_record(1024, 512);
    assert!(
        is_ioctl_fixed_record(&bytes, 512));
}

#[test]
fn is_ioctl_fixed_record_rejects_nonzero_usa_array() {
    let mut bytes = build_ioctl_fixed_record(1024, 512);
    let usa_offset = 0x30usize;
    bytes[usa_offset + 2..usa_offset + 4].copy_from_slice(&0x0001u16.to_le_bytes());
    assert!(
        !is_ioctl_fixed_record(&bytes, 512));
}

#[test]
fn is_ioctl_fixed_record_rejects_bad_signature() {
    let mut bytes = build_ioctl_fixed_record(1024, 512);
    bytes[0..4].copy_from_slice(b"BAAD");
    assert!(!is_ioctl_fixed_record(&bytes, 512));
}

#[test]
fn is_ioctl_fixed_record_rejects_wrong_usa_count() {
    let mut bytes = build_ioctl_fixed_record(1024, 512);
    bytes[0x06..0x08].copy_from_slice(&5u16.to_le_bytes());
    assert!(!is_ioctl_fixed_record(&bytes, 512));
}

fn build_duplicate_data_stream_record() -> Vec<u8> {
    let record_len = 1024;
    let bytes_per_sector = 512;
    let usa_offset = 0x30usize;
    let first_attr = 0x38usize;

    let mut buf = vec![0u8; record_len];
    buf[0..4].copy_from_slice(b"FILE");
    buf[0x04..0x06].copy_from_slice(&(usa_offset as u16).to_le_bytes());
    buf[0x06..0x08].copy_from_slice(&3u16.to_le_bytes());
    buf[0x10..0x12].copy_from_slice(&1u16.to_le_bytes());
    buf[0x14..0x16].copy_from_slice(&(first_attr as u16).to_le_bytes());
    buf[0x16..0x18].copy_from_slice(&0x01u16.to_le_bytes());
    buf[0x18..0x1C].copy_from_slice(&(record_len as u32).to_le_bytes());
    let mut off = first_attr;
    let data1_len = ATTR_NONRESIDENT_HEADER_LEN;
    let data1_padded = (data1_len + 7) & !7;
    buf[off..off + 4].copy_from_slice(&0x80u32.to_le_bytes());
    buf[off + 4..off + 8].copy_from_slice(&(data1_padded as u32).to_le_bytes());
    buf[off + 8] = 1;
    buf[off + 9] = 0;
    buf[off + 0x0A..off + 0x0C].copy_from_slice(&0x40u16.to_le_bytes());
    buf[off + 0x0E..off + 0x10].copy_from_slice(&0u16.to_le_bytes());
    buf[off + 0x10..off + 0x18].copy_from_slice(&0u64.to_le_bytes());
    buf[off + 0x18..off + 0x20].copy_from_slice(&0u64.to_le_bytes());
    buf[off + 0x20..off + 0x22].copy_from_slice(&0x40u16.to_le_bytes());
    buf[off + 0x30..off + 0x38].copy_from_slice(&1000u64.to_le_bytes());
    off += data1_padded;
    buf[off..off + 4].copy_from_slice(&0x80u32.to_le_bytes());
    buf[off + 4..off + 8].copy_from_slice(&(data1_padded as u32).to_le_bytes());
    buf[off + 8] = 1;
    buf[off + 9] = 0;
    buf[off + 0x0A..off + 0x0C].copy_from_slice(&0x40u16.to_le_bytes());
    buf[off + 0x0E..off + 0x10].copy_from_slice(&0u16.to_le_bytes());
    buf[off + 0x10..off + 0x18].copy_from_slice(&0u64.to_le_bytes());
    buf[off + 0x18..off + 0x20].copy_from_slice(&0u64.to_le_bytes());
    buf[off + 0x20..off + 0x22].copy_from_slice(&0x40u16.to_le_bytes());
    buf[off + 0x30..off + 0x38].copy_from_slice(&2000u64.to_le_bytes());
    off += data1_padded;
    buf[off..off + 4].copy_from_slice(&0xFFFF_FFFFu32.to_le_bytes());
    buf[off + 4..off + 8].copy_from_slice(&0u32.to_le_bytes());
    let usn: u16 = 0x4321;
    buf[usa_offset..usa_offset + 2].copy_from_slice(&usn.to_le_bytes());
    for i in 1..3 {
        let sector_end = i * bytes_per_sector - 2;
        let original = u16::from_le_bytes([buf[sector_end], buf[sector_end + 1]]);
        buf[usa_offset + i * 2..usa_offset + i * 2 + 2]
            .copy_from_slice(&original.to_le_bytes());
        buf[sector_end..sector_end + 2].copy_from_slice(&usn.to_le_bytes());
    }
    buf
}

#[test]
fn parse_record_duplicate_data_stream_no_double_count() {
    let bytes = build_duplicate_data_stream_record();
    let rec = parse_record(&bytes, 77, 512).unwrap();
    assert_eq!(
        rec.logical_size, 1000);
}

const TEST_RECORD_SIZE: u32 = 1024;
const TEST_BYTES_PER_SECTOR: u32 = 512;

fn test_volume_data(record_count: u64) -> VolumeData {
    VolumeData {
        bytes_per_sector: TEST_BYTES_PER_SECTOR,
        bytes_per_cluster: 4096,
        bytes_per_file_record_segment: TEST_RECORD_SIZE,
        mft_valid_data_length: record_count * TEST_RECORD_SIZE as u64,
        major_version: 3,
        minor_version: 1,
        slot_count: record_count,
    }
}

fn apply_usa_placeholder(buf: &mut [u8], bytes_per_sector: usize, usa_offset: usize) {
    let record_len = buf.len();
    let usa_count = record_len / bytes_per_sector + 1;
    let usn: u16 = 0x4321;
    buf[usa_offset..usa_offset + 2].copy_from_slice(&usn.to_le_bytes());
    for i in 1..usa_count {
        let sector_end = i * bytes_per_sector - 2;
        let original = u16::from_le_bytes([buf[sector_end], buf[sector_end + 1]]);
        buf[usa_offset + i * 2..usa_offset + i * 2 + 2]
            .copy_from_slice(&original.to_le_bytes());
        buf[sector_end..sector_end + 2].copy_from_slice(&usn.to_le_bytes());
    }
}

fn build_directory_record(_record_no: u64, parent_ref: u64, name: &str) -> Vec<u8> {
    let mut bytes = build_minimal_file_record(0, parent_ref, name, 0);
    let flags = u16::from_le_bytes([bytes[0x16], bytes[0x17]]) | FILE_FLAG_DIRECTORY;
    bytes[0x16..0x18].copy_from_slice(&flags.to_le_bytes());
    bytes
}

fn build_not_in_use_record(_record_no: u64) -> Vec<u8> {
    let mut bytes = build_minimal_file_record(0, (5u64 << 48) | 5u64, "x", 0);
    let flags = u16::from_le_bytes([bytes[0x16], bytes[0x17]]) & !FILE_FLAG_IN_USE;
    bytes[0x16..0x18].copy_from_slice(&flags.to_le_bytes());
    bytes
}

fn build_hardlink_record(
    _record_no: u64,
    parent1: u64,
    name1: &str,
    parent2: u64,
    name2: &str,
) -> Vec<u8> {
    let record_len = 1024usize;
    let bytes_per_sector = 512usize;
    let usa_offset = 0x30usize;
    let first_attr = 0x38usize;
    let mut buf = vec![0u8; record_len];
    buf[0..4].copy_from_slice(b"FILE");
    buf[0x04..0x06].copy_from_slice(&(usa_offset as u16).to_le_bytes());
    buf[0x06..0x08].copy_from_slice(&3u16.to_le_bytes());
    buf[0x10..0x12].copy_from_slice(&1u16.to_le_bytes());
    buf[0x14..0x16].copy_from_slice(&(first_attr as u16).to_le_bytes());
    buf[0x16..0x18].copy_from_slice(&0x01u16.to_le_bytes());
    buf[0x18..0x1C].copy_from_slice(&(record_len as u32).to_le_bytes());
    buf[0x20..0x28].copy_from_slice(&0u64.to_le_bytes());

    let mut off = first_attr;
    for (idx, (parent_ref, name)) in [(parent1, name1), (parent2, name2)].iter().enumerate() {
        let name_utf16: Vec<u16> = name.encode_utf16().collect();
        let name_bytes: Vec<u8> = name_utf16
            .iter()
            .flat_map(|&w| w.to_le_bytes())
            .collect();
        let fn_value_len = 0x42 + name_bytes.len();
        let fn_attr_len = 0x18 + fn_value_len;
        let fn_attr_len_padded = (fn_attr_len + 7) & !7;

        buf[off..off + 4].copy_from_slice(&0x30u32.to_le_bytes());
        buf[off + 4..off + 8].copy_from_slice(&(fn_attr_len_padded as u32).to_le_bytes());
        buf[off + 8] = 0;
        buf[off + 9] = 0;
        buf[off + 0x0A..off + 0x0C].copy_from_slice(&0x18u16.to_le_bytes());
        buf[off + 0x0E..off + 0x10].copy_from_slice(&(idx as u16).to_le_bytes());
        buf[off + 0x10..off + 0x14].copy_from_slice(&(fn_value_len as u32).to_le_bytes());
        buf[off + 0x14..off + 0x16].copy_from_slice(&0x18u16.to_le_bytes());
        let val_off = off + 0x18;
        buf[val_off..val_off + 8].copy_from_slice(&parent_ref.to_le_bytes());
        buf[val_off + 0x40] = name_utf16.len() as u8;
        buf[val_off + 0x41] = NAMESPACE_WIN32;
        buf[val_off + 0x42..val_off + 0x42 + name_bytes.len()].copy_from_slice(&name_bytes);
        off += fn_attr_len_padded;
    }
    let data_attr_len = 0x18;
    let data_attr_len_padded = (data_attr_len + 7) & !7;
    buf[off..off + 4].copy_from_slice(&0x80u32.to_le_bytes());
    buf[off + 4..off + 8].copy_from_slice(&(data_attr_len_padded as u32).to_le_bytes());
    buf[off + 8] = 0;
    buf[off + 9] = 0;
    buf[off + 0x0A..off + 0x0C].copy_from_slice(&0x18u16.to_le_bytes());
    buf[off + 0x0E..off + 0x10].copy_from_slice(&2u16.to_le_bytes());
    buf[off + 0x10..off + 0x14].copy_from_slice(&0u32.to_le_bytes());
    buf[off + 0x14..off + 0x16].copy_from_slice(&0x18u16.to_le_bytes());
    off += data_attr_len_padded;

    buf[off..off + 4].copy_from_slice(&0xFFFF_FFFFu32.to_le_bytes());
    buf[off + 4..off + 8].copy_from_slice(&0u32.to_le_bytes());
    apply_usa_placeholder(&mut buf, bytes_per_sector, usa_offset);
    buf
}

fn build_same_parent_win32_dos_record(
    _record_no: u64,
    parent_ref: u64,
    long_name: &str,
    short_name: &str,
) -> Vec<u8> {
    let record_len = 1024usize;
    let bytes_per_sector = 512usize;
    let usa_offset = 0x30usize;
    let first_attr = 0x38usize;
    let mut buf = vec![0u8; record_len];
    buf[0..4].copy_from_slice(b"FILE");
    buf[0x04..0x06].copy_from_slice(&(usa_offset as u16).to_le_bytes());
    buf[0x06..0x08].copy_from_slice(&3u16.to_le_bytes());
    buf[0x10..0x12].copy_from_slice(&1u16.to_le_bytes());
    buf[0x14..0x16].copy_from_slice(&(first_attr as u16).to_le_bytes());
    buf[0x16..0x18].copy_from_slice(&0x01u16.to_le_bytes());
    buf[0x18..0x1C].copy_from_slice(&(record_len as u32).to_le_bytes());
    buf[0x20..0x28].copy_from_slice(&0u64.to_le_bytes());

    let mut off = first_attr;
    for (idx, (parent_ref_val, name, ns)) in [
        (parent_ref, long_name, NAMESPACE_WIN32),
        (parent_ref, short_name, NAMESPACE_DOS),
    ]
    .iter()
    .enumerate()
    {
        let name_utf16: Vec<u16> = name.encode_utf16().collect();
        let name_bytes: Vec<u8> = name_utf16
            .iter()
            .flat_map(|&w| w.to_le_bytes())
            .collect();
        let fn_value_len = 0x42 + name_bytes.len();
        let fn_attr_len = 0x18 + fn_value_len;
        let fn_attr_len_padded = (fn_attr_len + 7) & !7;

        buf[off..off + 4].copy_from_slice(&0x30u32.to_le_bytes());
        buf[off + 4..off + 8].copy_from_slice(&(fn_attr_len_padded as u32).to_le_bytes());
        buf[off + 8] = 0;
        buf[off + 9] = 0;
        buf[off + 0x0A..off + 0x0C].copy_from_slice(&0x18u16.to_le_bytes());
        buf[off + 0x0E..off + 0x10].copy_from_slice(&(idx as u16).to_le_bytes());
        buf[off + 0x10..off + 0x14].copy_from_slice(&(fn_value_len as u32).to_le_bytes());
        buf[off + 0x14..off + 0x16].copy_from_slice(&0x18u16.to_le_bytes());
        let val_off = off + 0x18;
        buf[val_off..val_off + 8].copy_from_slice(&parent_ref_val.to_le_bytes());
        buf[val_off + 0x40] = name_utf16.len() as u8;
        buf[val_off + 0x41] = *ns;
        buf[val_off + 0x42..val_off + 0x42 + name_bytes.len()].copy_from_slice(&name_bytes);
        off += fn_attr_len_padded;
    }

    let data_attr_len = 0x18;
    let data_attr_len_padded = (data_attr_len + 7) & !7;
    buf[off..off + 4].copy_from_slice(&0x80u32.to_le_bytes());
    buf[off + 4..off + 8].copy_from_slice(&(data_attr_len_padded as u32).to_le_bytes());
    buf[off + 8] = 0;
    buf[off + 9] = 0;
    buf[off + 0x0A..off + 0x0C].copy_from_slice(&0x18u16.to_le_bytes());
    buf[off + 0x0E..off + 0x10].copy_from_slice(&2u16.to_le_bytes());
    buf[off + 0x10..off + 0x14].copy_from_slice(&0u32.to_le_bytes());
    buf[off + 0x14..off + 0x16].copy_from_slice(&0x18u16.to_le_bytes());
    off += data_attr_len_padded;

    buf[off..off + 4].copy_from_slice(&0xFFFF_FFFFu32.to_le_bytes());
    buf[off + 4..off + 8].copy_from_slice(&0u32.to_le_bytes());
    apply_usa_placeholder(&mut buf, bytes_per_sector, usa_offset);
    buf
}

fn build_extension_record(_record_no: u64, base_no: u64, logical_size: u64) -> Vec<u8> {
    let record_len = 1024usize;
    let bytes_per_sector = 512usize;
    let usa_offset = 0x30usize;
    let first_attr = 0x38usize;
    let mut buf = vec![0u8; record_len];
    buf[0..4].copy_from_slice(b"FILE");
    buf[0x04..0x06].copy_from_slice(&(usa_offset as u16).to_le_bytes());
    buf[0x06..0x08].copy_from_slice(&3u16.to_le_bytes());
    buf[0x10..0x12].copy_from_slice(&1u16.to_le_bytes());
    buf[0x14..0x16].copy_from_slice(&(first_attr as u16).to_le_bytes());
    buf[0x16..0x18].copy_from_slice(&0x01u16.to_le_bytes());
    buf[0x18..0x1C].copy_from_slice(&(record_len as u32).to_le_bytes());
    let base_ref = (1u64 << 48) | base_no;
    buf[0x20..0x28].copy_from_slice(&base_ref.to_le_bytes());

    let mut off = first_attr;
    let data_len = ATTR_NONRESIDENT_HEADER_LEN;
    let data_padded = (data_len + 7) & !7;
    buf[off..off + 4].copy_from_slice(&0x80u32.to_le_bytes());
    buf[off + 4..off + 8].copy_from_slice(&(data_padded as u32).to_le_bytes());
    buf[off + 8] = 1;
    buf[off + 9] = 0;
    buf[off + 0x0A..off + 0x0C].copy_from_slice(&0x40u16.to_le_bytes());
    buf[off + 0x0E..off + 0x10].copy_from_slice(&0u16.to_le_bytes());
    buf[off + 0x10..off + 0x18].copy_from_slice(&0u64.to_le_bytes());
    buf[off + 0x18..off + 0x20].copy_from_slice(&0u64.to_le_bytes());
    buf[off + 0x20..off + 0x22].copy_from_slice(&0x40u16.to_le_bytes());
    buf[off + 0x30..off + 0x38].copy_from_slice(&logical_size.to_le_bytes());
    off += data_padded;

    buf[off..off + 4].copy_from_slice(&0xFFFF_FFFFu32.to_le_bytes());
    buf[off + 4..off + 8].copy_from_slice(&0u32.to_le_bytes());
    apply_usa_placeholder(&mut buf, bytes_per_sector, usa_offset);
    buf
}

fn build_bad_record() -> Vec<u8> {
    vec![0xFFu8; TEST_RECORD_SIZE as usize]
}

struct MockReader {
    records: HashMap<u64, Vec<u8>>,
}

impl MockReader {
    fn from_records(records: HashMap<u64, Vec<u8>>, _record_size: u32) -> Self {
        Self { records }
    }
}

impl RecordReader for MockReader {
    fn read(&self, requested_record: u64) -> Result<RawFileRecord, MftError> {
        match self.records.get(&requested_record) {
            Some(bytes) => Ok(RawFileRecord {
                file_reference: requested_record,
                bytes: bytes.clone(),
            }),
            None => Err(MftError::Io(IoFault {
                code: None,
                message: format!("mock record {requested_record} missing"),
            })),
        }
    }
}

#[test]
fn enumeration_visits_all_records_ascending() {
    let mut records = HashMap::new();
    records.insert(0, build_minimal_file_record(0, (5u64 << 48) | 5u64, "mft", 0));
    records.insert(1, build_minimal_file_record(0, (5u64 << 48) | 5u64, "one", 10));
    records.insert(5, build_directory_record(0, (5u64 << 48) | 5u64, "root"));
    let reader = MockReader::from_records(records, TEST_RECORD_SIZE);
    let vd = test_volume_data(6);
    let cancel = || false;
    let progress = |_n| {};
    let index = enumerate_mft(&reader, vd, &cancel, &progress).unwrap();
    assert_eq!(index.scanned_records, 3);
    assert_eq!(index.skipped_records, 3);
    assert!(index.records.contains_key(&0));
    assert!(index.records.contains_key(&1));
    assert!(index.records.contains_key(&5));
}

#[test]
fn enumeration_skips_not_in_use_records() {
    let mut records = HashMap::new();
    records.insert(0, build_minimal_file_record(0, (5u64 << 48) | 5u64, "mft", 0));
    records.insert(1, build_not_in_use_record(1));
    records.insert(5, build_directory_record(0, (5u64 << 48) | 5u64, "root"));
    let reader = MockReader::from_records(records, TEST_RECORD_SIZE);
    let vd = test_volume_data(6);
    let index = enumerate_mft(&reader, vd, &|| false, &|_| {}).unwrap();
    assert!(!index.records.contains_key(&1));
    assert_eq!(index.scanned_records, 3);
    assert_eq!(index.skipped_records, 3);
    assert_eq!(index.scanned_files, 1);
}

#[test]
fn enumeration_counts_bad_records_as_skipped() {
    let mut records = HashMap::new();
    records.insert(0, build_minimal_file_record(0, (5u64 << 48) | 5u64, "mft", 0));
    records.insert(1, build_bad_record());
    records.insert(5, build_directory_record(0, (5u64 << 48) | 5u64, "root"));
    let reader = MockReader::from_records(records, TEST_RECORD_SIZE);
    let vd = test_volume_data(6);
    let index = enumerate_mft(&reader, vd, &|| false, &|_| {}).unwrap();
    assert_eq!(index.skipped_records, 4);
    assert!(!index.records.contains_key(&1));
}

#[test]
fn enumeration_root_missing_returns_error() {
    let mut records = HashMap::new();
    records.insert(0, build_minimal_file_record(0, (5u64 << 48) | 5u64, "mft", 0));
    records.insert(1, build_minimal_file_record(0, (5u64 << 48) | 5u64, "one", 10));
    let reader = MockReader::from_records(records, TEST_RECORD_SIZE);
    let vd = test_volume_data(6);
    let err = enumerate_mft(&reader, vd, &|| false, &|_| {}).unwrap_err();
    assert!(matches!(err, MftError::RootRecordMissing));
}

#[test]
fn enumeration_precancel_returns_cancelled() {
    let mut records = HashMap::new();
    records.insert(0, build_minimal_file_record(0, (5u64 << 48) | 5u64, "mft", 0));
    let reader = MockReader::from_records(records, TEST_RECORD_SIZE);
    let vd = test_volume_data(6);
    let err = enumerate_mft(&reader, vd, &|| true, &|_| {}).unwrap_err();
    assert!(matches!(err, MftError::Cancelled));
}

#[test]
fn enumeration_cancel_mid_scan() {
    let mut records = HashMap::new();
    for n in 0..6 {
        records.insert(
            n,
            build_minimal_file_record(0, (5u64 << 48) | 5u64, &format!("f{n}"), 1),
        );
    }
    records.insert(5, build_directory_record(0, (5u64 << 48) | 5u64, "root"));
    let reader = MockReader::from_records(records, TEST_RECORD_SIZE);
    let vd = test_volume_data(6);
    let calls = Cell::new(0u64);
    let err = enumerate_mft(
        &reader,
        vd,
        &|| {
            calls.set(calls.get() + 1);
            calls.get() == 2
        },
        &|_| {},
    )
    .unwrap_err();
    assert!(matches!(err, MftError::Cancelled));
    assert_eq!(calls.get(), 2);
}

#[test]
fn enumeration_excessive_errors_threshold() {
    let mut records = HashMap::new();
    for n in 0..256u64 {
        if n < 150 {
            records.insert(n, build_bad_record());
        } else if n == 5 {
            records.insert(n, build_directory_record(0, (5u64 << 48) | 5u64, "root"));
        } else {
            records.insert(
                n,
                build_minimal_file_record(0, (5u64 << 48) | 5u64, "f", 1),
            );
        }
    }
    let reader = MockReader::from_records(records, TEST_RECORD_SIZE);
    let vd = test_volume_data(256);
    let err = enumerate_mft(&reader, vd, &|| false, &|_| {}).unwrap_err();
    match err {
        MftError::ExcessiveRecordErrors { skipped, scanned } => {
            assert!(skipped > 100);
            assert!(skipped.saturating_mul(100) > scanned);
        }
        other => panic!("{other:?}"),
    }
}

#[test]
fn enumeration_record_0_passed_to_parser_once() {
    let mut records = HashMap::new();
    records.insert(0, build_minimal_file_record(0, (5u64 << 48) | 5u64, "mft", 0));
    records.insert(1, build_minimal_file_record(0, (5u64 << 48) | 5u64, "one", 10));
    records.insert(5, build_directory_record(0, (5u64 << 48) | 5u64, "root"));
    let reader = MockReader::from_records(records, TEST_RECORD_SIZE);
    let vd = test_volume_data(6);
    let index = enumerate_mft(&reader, vd, &|| false, &|_| {}).unwrap();
    assert_eq!(index.scanned_records, 3);
    assert!(index.records.contains_key(&0));
}

#[test]
fn enumeration_extension_merge_sizes() {
    let mut records = HashMap::new();
    records.insert(0, build_minimal_file_record(0, (5u64 << 48) | 5u64, "mft", 0));
    records.insert(5, build_directory_record(0, (5u64 << 48) | 5u64, "root"));
    records.insert(41, build_minimal_file_record(0, (5u64 << 48) | 5u64, "base", 10));
    records.insert(49, build_extension_record(49, 41, 100));
    records.insert(50, build_extension_record(50, 41, 200));
    for n in 1..51u64 {
        if !records.contains_key(&n) {
            records.insert(
                n,
                build_minimal_file_record(0, (5u64 << 48) | 5u64, "f", 1),
            );
        }
    }
    let reader = MockReader::from_records(records, TEST_RECORD_SIZE);
    let vd = test_volume_data(51);
    let index = enumerate_mft(&reader, vd, &|| false, &|_| {}).unwrap();
    let base = index.records.get(&41).unwrap();
    assert_eq!(base.logical_size, 10 + 100 + 200);
    assert!(!index.records.contains_key(&49));
    assert!(!index.records.contains_key(&50));
}

#[test]
fn enumeration_extension_bounded_before_base() {
    let mut records = HashMap::new();
    records.insert(0, build_minimal_file_record(0, (5u64 << 48) | 5u64, "mft", 0));
    records.insert(5, build_directory_record(0, (5u64 << 48) | 5u64, "root"));
    records.insert(30, build_extension_record(30, 41, 55));
    records.insert(41, build_minimal_file_record(0, (5u64 << 48) | 5u64, "base", 10));
    for n in 1..42u64 {
        if !records.contains_key(&n) {
            records.insert(
                n,
                build_minimal_file_record(0, (5u64 << 48) | 5u64, "f", 1),
            );
        }
    }
    let reader = MockReader::from_records(records, TEST_RECORD_SIZE);
    let vd = test_volume_data(42);
    let index = enumerate_mft(&reader, vd, &|| false, &|_| {}).unwrap();
    let base = index.records.get(&41).unwrap();
    assert_eq!(base.logical_size, 10 + 55);
}

#[test]
fn enumeration_hard_link_entries_counted() {
    let mut records = HashMap::new();
    for n in 0..42u64 {
        if n == 5 {
            records.insert(n, build_directory_record(0, (5u64 << 48) | 5u64, "root"));
        } else if n == 40 {
            records.insert(
                n,
                build_hardlink_record(
                    n,
                    (5u64 << 48) | 5u64,
                    "alpha.txt",
                    (1u64 << 48) | 42u64,
                    "hardlink_to_alpha.txt",
                ),
            );
        } else {
            records.insert(
                n,
                build_minimal_file_record(0, (5u64 << 48) | 5u64, "f", 1),
            );
        }
    }
    let reader = MockReader::from_records(records, TEST_RECORD_SIZE);
    let vd = test_volume_data(42);
    let index = enumerate_mft(&reader, vd, &|| false, &|_| {}).unwrap();
    assert_eq!(index.scanned_files, 41);
    assert_eq!(index.hard_link_entries, 1);
}

#[test]
fn enumeration_counts_links_within_one_directory() {
    let root = (5u64 << 48) | 5u64;
    let mut records = HashMap::new();
    for n in 0..42u64 {
        let record = match n {
            5 => build_directory_record(0, root, "root"),
            40 => build_hardlink_record(40, root, "alpha.txt", root, "beta.txt"),
            _ => build_minimal_file_record(0, root, "f", 1),
        };
        records.insert(n, record);
    }
    let reader = MockReader::from_records(records, TEST_RECORD_SIZE);
    let index = enumerate_mft(&reader, test_volume_data(42), &|| false, &|_| {}).unwrap();
    assert_eq!(index.hard_link_entries, 1);
    assert_eq!(index.scanned_files, 41);
}

#[test]
fn enumeration_same_parent_win32_dos_not_hard_link() {
    let mut records = HashMap::new();
    for n in 0..46u64 {
        if n == 5 {
            records.insert(n, build_directory_record(0, (5u64 << 48) | 5u64, "root"));
        } else if n == 45 {
            records.insert(
                n,
                build_same_parent_win32_dos_record(
                    n,
                    (5u64 << 48) | 5u64,
                    "long filename.txt",
                    "LONGFI~1.TXT",
                ),
            );
        } else {
            records.insert(
                n,
                build_minimal_file_record(0, (5u64 << 48) | 5u64, "f", 1),
            );
        }
    }
    let reader = MockReader::from_records(records, TEST_RECORD_SIZE);
    let vd = test_volume_data(46);
    let index = enumerate_mft(&reader, vd, &|| false, &|_| {}).unwrap();
    assert_eq!(index.hard_link_entries, 0);
    assert_eq!(index.scanned_files, 45);
}

#[test]
fn enumeration_progress_callback_monotonic() {
    let mut records = HashMap::new();
    for n in 0..4098u64 {
        if n == 5 {
            records.insert(n, build_directory_record(0, (5u64 << 48) | 5u64, "root"));
        } else {
            records.insert(
                n,
                build_minimal_file_record(0, (5u64 << 48) | 5u64, "f", 1),
            );
        }
    }
    let reader = MockReader::from_records(records, TEST_RECORD_SIZE);
    let vd = test_volume_data(4098);
    let progress_calls = RefCell::new(Vec::new());
    let index = enumerate_mft(
        &reader,
        vd,
        &|| false,
        &|n| progress_calls.borrow_mut().push(n),
    )
    .unwrap();
    let progress_calls = progress_calls.into_inner();
    assert!(!progress_calls.is_empty());
    for w in progress_calls.windows(2) {
        assert!(w[0] <= w[1]);
    }
    assert_eq!(index.scanned_records, 4098);
}

#[test]
fn reader_read_slices_record_n() {
    let r0 = build_minimal_file_record(0, (5u64 << 48) | 5u64, "a", 1);
    let r1 = build_minimal_file_record(0, (5u64 << 48) | 5u64, "b", 2);
    let r2 = build_minimal_file_record(0, (5u64 << 48) | 5u64, "c", 3);
    let mut bytes = Vec::new();
    bytes.extend_from_slice(&r0);
    bytes.extend_from_slice(&r1);
    bytes.extend_from_slice(&r2);
    let reader = MftFileReader::from_bytes(bytes, TEST_RECORD_SIZE);
    assert_eq!(reader.record_count(), 3);
    for (n, expected_first_name) in [(0u64, "a"), (1, "b"), (2, "c")] {
        let rec = reader.read(n).unwrap();
        assert_eq!(rec.file_reference, n);
        assert_eq!(rec.bytes.len(), TEST_RECORD_SIZE as usize);
        let parsed = parse_record(&rec.bytes, n, TEST_BYTES_PER_SECTOR).unwrap();
        assert_eq!(parsed.names[0].name, expected_first_name);
    }
}

#[test]
fn reader_read_out_of_range_returns_io_error() {
    let r0 = build_minimal_file_record(0, (5u64 << 48) | 5u64, "a", 1);
    let reader = MftFileReader::from_bytes(r0, TEST_RECORD_SIZE);
    let err = reader.read(1).unwrap_err();
    assert!(matches!(err, MftError::Io(_)));
}

fn assert_eq_file_record(
    rec: &MftRecord,
    record_no: u64,
    sequence: u16,
    is_dir: bool,
    has_base: bool,
    in_use: bool,
) {
    assert_eq!(rec.id.record_no, record_no);
    assert_eq!(rec.id.sequence, sequence);
    assert_eq!(rec.is_dir, is_dir);
    assert_eq!(rec.base_record.is_some(), has_base);
    assert_eq!(rec.in_use, in_use);
}

/// Numbers that look random, the same in every run.
struct Noise(u64);

impl Noise {
    fn next(&mut self) -> u64 {
        self.0 = self.0.wrapping_mul(6364136223846793005).wrapping_add(1442695040888963407);
        self.0 >> 33
    }

    fn bytes(&mut self, max: u64) -> Vec<u8> {
        let n = self.next() % max;
        (0..n).map(|_| self.next() as u8).collect()
    }
}

#[test]
fn arbitrary_bytes_never_panic() {
    let mut noise = Noise(7);
    for _ in 0..256 {
        let data = noise.bytes(1024);
        let _ = parse_record(&data, 42, 512);
        let data = noise.bytes(128);
        let _ = decode_data_runs(&data);
        let data = noise.bytes(512);
        let _ = parse_attribute_list_entries(&data, 0);
    }
}

#[test]
fn arbitrary_update_sequences_never_panic() {
    for usa_offset in 0u16..1024 {
        for usa_count in 0u16..6 {
            let record_len = 1024usize;
            let mut buf = vec![0u8; record_len];
            buf[0..4].copy_from_slice(b"FILE");
            buf[0x04..0x06].copy_from_slice(&usa_offset.to_le_bytes());
            buf[0x06..0x08].copy_from_slice(&usa_count.to_le_bytes());
            buf[0x10..0x12].copy_from_slice(&1u16.to_le_bytes());
            buf[0x14..0x16].copy_from_slice(&0x38u16.to_le_bytes());
            buf[0x16..0x18].copy_from_slice(&0x01u16.to_le_bytes());
            buf[0x18..0x1C].copy_from_slice(&(record_len as u32).to_le_bytes());
            buf[0x38..0x3C].copy_from_slice(&0xFFFF_FFFFu32.to_le_bytes());
            let _ = parse_record(&buf, 7, 512);
        }
    }
}

#[test]
fn repaired_records_pass_unchanged() {
    let bytes = build_valid_record_bytes(1024, 512);
    let fixed = apply_usa_fixup(&bytes, 0, 512).unwrap();
    assert_ne!(fixed, bytes);
    assert_eq!(apply_usa_fixup(&fixed, 0, 512).unwrap(), fixed);
}

#[test]
fn odd_sector_sizes_are_refused() {
    let bytes = build_valid_record_bytes(1024, 512);
    assert!(apply_usa_fixup(&bytes, 3, 0).is_err());
    assert!(apply_usa_fixup(&bytes, 3, 1000).is_err());
    assert!(matches!(apply_usa_fixup(&bytes, 3, 1), Err(MftError::BadRecord { ref_no: 3 })));
}

fn list_entry(type_: u32, len: u16, base: u64) -> Vec<u8> {
    let mut e = vec![0u8; len as usize];
    e[0..4].copy_from_slice(&type_.to_le_bytes());
    e[4..6].copy_from_slice(&len.to_le_bytes());
    e[0x10..0x18].copy_from_slice(&base.to_le_bytes());
    e
}

#[test]
fn attribute_lists_are_read_entry_by_entry() {
    let mut list = list_entry(0x30, 32, (2u64 << 48) | 41);
    list.extend(list_entry(0x80, 32, (3u64 << 48) | 42));
    let entries = parse_attribute_list_entries(&list, 9).unwrap();
    assert_eq!(entries.len(), 2);
    assert!(parse_attribute_list_entries(&[], 9).unwrap().is_empty());
    let broken = list_entry(0x80, 32, 0);
    let mut short = broken.clone();
    short[4] = 0;
    assert!(matches!(
        parse_attribute_list_entries(&short, 9),
        Err(MftError::BadRecord { ref_no: 9 })
    ));
}

/// Record 0 of a volume, whose data lies in the given runs.
fn build_mft_record(runs: &[u8]) -> Vec<u8> {
    let record_len = 1024usize;
    let usa_offset = 0x30usize;
    let first_attr = 0x38usize;
    let mut buf = vec![0u8; record_len];
    buf[0..4].copy_from_slice(b"FILE");
    buf[0x04..0x06].copy_from_slice(&(usa_offset as u16).to_le_bytes());
    buf[0x06..0x08].copy_from_slice(&3u16.to_le_bytes());
    buf[0x10..0x12].copy_from_slice(&1u16.to_le_bytes());
    buf[0x14..0x16].copy_from_slice(&(first_attr as u16).to_le_bytes());
    buf[0x16..0x18].copy_from_slice(&0x01u16.to_le_bytes());
    buf[0x18..0x1C].copy_from_slice(&(record_len as u32).to_le_bytes());
    let attr_len = (0x40 + runs.len() + 7) & !7;
    let off = first_attr;
    buf[off..off + 4].copy_from_slice(&0x80u32.to_le_bytes());
    buf[off + 4..off + 8].copy_from_slice(&(attr_len as u32).to_le_bytes());
    buf[off + 8] = 1;
    buf[off + 0x20..off + 0x22].copy_from_slice(&0x40u16.to_le_bytes());
    buf[off + 0x40..off + 0x40 + runs.len()].copy_from_slice(runs);
    buf[off + attr_len..off + attr_len + 4].copy_from_slice(&0xFFFF_FFFFu32.to_le_bytes());
    apply_usa_placeholder(&mut buf, 512, usa_offset);
    buf
}

#[test]
fn runs_of_the_mft_are_extracted() {
    let record = build_mft_record(&[0x11, 4, 100, 0x01, 2, 0x11, 1, 10, 0x00]);
    let runs = extract_mft_data_runs(&record, 512).unwrap();
    let places: Vec<(i64, u64)> = runs.iter().map(|r| (r.start_lcn, r.length_clusters)).collect();
    assert_eq!(places, vec![(100, 4), (0, 2), (114, 1)]);
    let file = build_minimal_file_record(0, (5u64 << 48) | 5u64, "mft", 0);
    assert!(matches!(extract_mft_data_runs(&file, 512), Err(MftError::BadRecord { ref_no: 0 })));
}

#[test]
fn the_mft_is_gathered_run_by_run() {
    let record = build_mft_record(&[0x11, 1, 100, 0x01, 1, 0x11, 1, 10, 0x00]);
    let mut vd = test_volume_data(12);
    vd.mft_valid_data_length = 3 * 4096;
    let mut loader = MftLoader::start(vd, &record).unwrap();
    let mut reads = Vec::new();
    loop {
        match loader.step().unwrap() {
            LoadStep::Read { offset, len } => {
                reads.push((offset, len));
                let fill = reads.len() as u8;
                loader.supply(&vec![fill; len as usize]);
            }
            LoadStep::Done => break,
        }
    }
    assert_eq!(reads, vec![(100 * 4096, 4096), (111 * 4096, 4096)]);
    let reader = loader.finish().unwrap();
    assert_eq!(reader.record_count(), 12);
    assert_eq!(reader.read(0).unwrap().bytes, vec![1u8; 1024]);
    assert_eq!(reader.read(4).unwrap().bytes, vec![0u8; 1024]);
    assert_eq!(reader.read(11).unwrap().bytes, vec![2u8; 1024]);
}

#[test]
fn runs_beyond_the_valid_length_are_refused() {
    let record = build_mft_record(&[0x11, 4, 100, 0x00]);
    let mut vd = test_volume_data(4);
    vd.mft_valid_data_length = 4096;
    let mut loader = MftLoader::start(vd, &record).unwrap();
    assert!(matches!(loader.step(), Err(MftError::InvalidVolumeData)));
}

#[test]
fn missing_bytes_are_noticed() {
    let record = build_mft_record(&[0x11, 1, 100, 0x00]);
    let mut loader = MftLoader::start(test_volume_data(8), &record).unwrap();
    assert!(matches!(loader.step(), Ok(LoadStep::Read { .. })));
    loader.supply(&[0u8; 4096]);
    assert!(matches!(loader.step(), Ok(LoadStep::Done)));
    assert!(matches!(loader.finish(), Err(MftError::InvalidVolumeData)));
}

#[test]
fn odd_volumes_are_refused() {
    let mut vd = test_volume_data(6);
    assert!(validate_volume_data(&vd).is_ok());
    vd.minor_version = 0;
    assert!(matches!(
        validate_volume_data(&vd),
        Err(MftError::UnsupportedNtfsVersion { major: 3, minor: 0 })
    ));
    vd.minor_version = 1;
    vd.slot_count = 0;
    assert!(matches!(validate_volume_data(&vd), Err(MftError::InvalidVolumeData)));
}

#[test]
fn extensions_without_a_base_are_counted() {
    let mut records = HashMap::new();
    for n in 0..12u64 {
        records.insert(n, build_minimal_file_record(0, (5u64 << 48) | 5u64, "f", 1));
    }
    records.insert(5, build_directory_record(0, (5u64 << 48) | 5u64, "root"));
    records.insert(7, build_extension_record(7, 99, 100));
    let reader = MockReader::from_records(records, TEST_RECORD_SIZE);
    let index = enumerate_mft(&reader, test_volume_data(12), &|| false, &|_| {}).unwrap();
    assert_eq!(index.unresolved_extensions, 1);
    assert_eq!(index.records.len(), 11);
    let total: u64 = index.records.values().map(|r| r.logical_size).sum();
    assert_eq!(total, 10);
}

#[test]
fn names_are_decoded_from_utf16() {
    let bytes = build_minimal_file_record(3, (5u64 << 48) | 5u64, "微信 文件.txt", 10);
    let rec = parse_record(&bytes, 3, 512).unwrap();
    assert_eq!(rec.names[0].name, "微信 文件.txt");
}

#[test]
fn errors_name_their_cause() {
    let texts = [
        MftError::NeedElevation.describe(),
        MftError::UnsupportedFilesystem { actual: "fat32".into() }.describe(),
        MftError::InvalidVolumeData.describe(),
        MftError::RootRecordMissing.describe(),
        MftError::ExcessiveRecordErrors { skipped: 101, scanned: 200 }.describe(),
        MftError::Cancelled.describe(),
    ];
    assert!(texts[0].contains("管理员"));
    assert!(texts[1].contains("fat32"));
    assert!(texts[4].contains("101") && texts[4].contains("200"));
    for (i, a) in texts.iter().enumerate() {
        for b in &texts[i + 1..] {
            assert_ne!(a, b);
        }
    }
    assert!(matches!(MftError::from_volume(VolumeError::AccessDenied), MftError::NeedElevation));
}

#[test]
fn numbers_are_read_within_bounds() {
    let b = [0x01, 0x02, 0x03, 0x04, 0x05, 0x06, 0x07, 0x08];
    assert_eq!(read_u16_at(&b, 6, 3).unwrap(), 0x0807);
    assert_eq!(read_u32_at(&b, 4, 3).unwrap(), 0x0807_0605);
    assert_eq!(read_u64_at(&b, 0, 3).unwrap(), 0x0807_0605_0403_0201);
    assert!(matches!(read_u16_at(&b, 7, 3), Err(MftError::BadRecord { ref_no: 3 })));
    assert!(matches!(read_u32_at(&b, 5, 3), Err(MftError::BadRecord { ref_no: 3 })));
    assert!(matches!(read_u64_at(&b, usize::MAX, 3), Err(MftError::BadRecord { ref_no: 3 })));
}

#[test]
fn references_keep_their_bits() {
    for raw in [0u64, 5, (7u64 << 48) | 41, u64::MAX] {
        let r = FileRef::from_raw(raw);
        assert_eq!(r.record_no | ((r.sequence as u64) << 48), raw);
    }
}
