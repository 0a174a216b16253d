use dayu_disk_manager::error::AppError;
use dayu_disk_manager::migrator::SrcResolver;
use dayu_disk_manager::process_probe::{running_process_names, strip_exe_suffix, wide_to_string};
use dayu_disk_manager::vss::{map_hresult, shadow_path};

#[test]
fn shadow_path_strips_drive_and_joins_device() {
    let dev = r"\\?\GLOBALROOT\Device\HarddiskVolumeShadowCopy3";
    let got = shadow_path(dev, r"C:\Users\x\cache\foo.bin");
    assert_eq!(
        got,
        r"\\?\GLOBALROOT\Device\HarddiskVolumeShadowCopy3\Users\x\cache\foo.bin"
    );
}

#[test]
fn shadow_path_normalizes_forward_slashes() {
    let dev = r"\\?\GLOBALROOT\Device\HarddiskVolumeShadowCopy1";
    let got = shadow_path(dev, "E:/Data/sub/a.txt");
    assert_eq!(got, r"\\?\GLOBALROOT\Device\HarddiskVolumeShadowCopy1\Data\sub\a.txt");
}

#[test]
fn shadow_path_strips_long_path_prefix() {
    let dev = r"\\?\GLOBALROOT\Device\HarddiskVolumeShadowCopy2";
    let got = shadow_path(dev, r"\\?\C:\a\b");
    assert_eq!(got, r"\\?\GLOBALROOT\Device\HarddiskVolumeShadowCopy2\a\b");
}

#[test]
fn shadow_path_lowercase_drive_matches_uppercase() {
    let dev = r"\\?\GLOBALROOT\Device\HarddiskVolumeShadowCopy4";
    let got = shadow_path(dev, r"c:\X\Y");
    assert_eq!(got, r"\\?\GLOBALROOT\Device\HarddiskVolumeShadowCopy4\X\Y");
}

#[test]
fn failed_vss_calls_name_the_operation_and_the_code() {
    let e = map_hresult(0x8000_4005, "DoSnapshotSet");
    assert!(matches!(e, AppError::Vss(_)));
    let text = e.describe();
    assert!(text.contains("DoSnapshotSet"), "{text}");
    assert!(text.to_lowercase().contains("80004005"), "{text}");
}

#[test]
fn src_resolver_non_vss_returns_original() {
    let r = SrcResolver::new(r"C:\Users\x\cache", None);
    assert!(!r.vss_enabled());
    assert_eq!(r.read(), r"C:\Users\x\cache");
}

#[test]
fn strip_suffix_works() {
    assert_eq!(strip_exe_suffix("Explorer.EXE"), "Explorer");
    assert_eq!(strip_exe_suffix("wechat.exe"), "wechat");
    assert_eq!(strip_exe_suffix("cargo"), "cargo");
    assert_eq!(strip_exe_suffix(""), "");
    assert_eq!(strip_exe_suffix(".exe"), ".exe");
}

#[test]
fn process_names_are_lower_case_without_suffix() {
    let names = running_process_names(&["Explorer.EXE".into(), "WeChat.exe".into(), "System".into()]);
    assert_eq!(names, vec!["explorer", "wechat", "system"]);
    for n in &names {
        assert!(!n.contains(".exe"));
        assert_eq!(*n, n.to_lowercase());
    }
}

#[test]
fn wide_text_ends_at_the_first_zero() {
    let wide: Vec<u16> = "进程.exe\0rest".encode_utf16().collect();
    assert_eq!(wide_to_string(&wide), "进程.exe");
    assert_eq!(wide_to_string(&[0x41, 0xD800, 0x42]), "A\u{FFFD}B");
    assert_eq!(wide_to_string(&[]), "");
}

#[test]
fn halves_of_pairs_become_replacement_characters() {
    assert_eq!(wide_to_string(&[0x41, 0xD83D, 0xDE00, 0x42, 0]), "A\u{1F600}B");
    assert_eq!(wide_to_string(&[0xD83D, 0x41]), "\u{FFFD}A");
    assert_eq!(wide_to_string(&[0xDE00, 0xD83D]), "\u{FFFD}\u{FFFD}");
    assert_eq!(wide_to_string(&[0xD83D, 0xD83D, 0xDE00]), "\u{FFFD}\u{1F600}");
    assert_eq!(wide_to_string(&[0xFFFF, 0xDBFF, 0xDFFF]), "\u{FFFF}\u{10FFFF}");
}
