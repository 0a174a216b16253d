use dayu_disk_manager::keys::sorted_keys;
use dayu_disk_manager::mft::FileRef;
use dayu_disk_manager::pathmap::PathMap;
use dayu_disk_manager::paths::{
    drive_root_path, expand_env, is_path_excluded, is_strictly_under, join_path, normalize,
    normalize_excluded, EnvVars,
};
use dayu_disk_manager::refmap::RefMap;
use std::collections::HashMap;

fn env() -> EnvVars {
    EnvVars {
        userprofile: Some("C:\\Users\\x".into()),
        localappdata: None,
        appdata: Some("C:\\Users\\x\\AppData\\Roaming".into()),
    }
}

#[test]
fn normal_forms_have_small_letters_and_backslashes() {
    assert_eq!(normalize("C:/Users/Ä/"), "c:\\users\\ä");
    assert_eq!(normalize("C:\\"), normalize("c:/"));
    assert_eq!(normalize(""), "");
}

#[test]
fn variables_are_expanded_where_they_are_set() {
    assert_eq!(expand_env("%USERPROFILE%\\a", &env()), "C:\\Users\\x\\a");
    assert_eq!(expand_env("%LOCALAPPDATA%\\a", &env()), "%LOCALAPPDATA%\\a");
    assert_eq!(expand_env("%APPDATA%|%APPDATA%", &env()).matches("Roaming").count(), 2);
}

#[test]
fn empty_exclusions_are_left_out() {
    let list = normalize_excluded(
        &["%USERPROFILE%/Temp/".to_string(), String::new(), "D:\\X".to_string()],
        &env(),
    );
    assert_eq!(list, vec!["c:\\users\\x\\temp".to_string(), "d:\\x".to_string()]);
}

#[test]
fn containment_is_transitive_and_ends_at_names() {
    assert!(is_strictly_under("c:\\a\\b\\c", "c:\\a\\b"));
    assert!(is_strictly_under("c:\\a\\b", "c:\\a"));
    assert!(is_strictly_under("c:\\a\\b\\c", "c:\\a"));
    assert!(!is_strictly_under("c:\\a", "c:\\a"));
    assert!(!is_strictly_under("c:\\ab", "c:\\a"));
    assert!(!is_strictly_under("c:\\a", "c:\\a\\b"));
    assert!(!is_path_excluded("c:\\windows.old", &["c:\\windows".to_string()]));
}

#[test]
fn paths_are_joined_with_one_backslash() {
    assert_eq!(drive_root_path('C'), "C:\\");
    assert_eq!(join_path("C:\\", "Users"), "C:\\Users");
    assert_eq!(join_path("C:\\Users", "x"), "C:\\Users\\x");
}

#[test]
fn path_maps_keep_the_last_value() {
    let mut m: PathMap<u32> = PathMap::new();
    m.insert("a".into(), 1);
    m.insert("b".into(), 2);
    m.insert("a".into(), 3);
    assert_eq!(m.len(), 2);
    assert_eq!(m.get("a"), Some(&3));
    assert_eq!(m.get("c"), None);
    assert!(m.contains_key("b"));
    assert_eq!(m.key_at(0), "a");
    assert_eq!(*m.value_at(1), 2);
}

#[test]
fn reference_maps_keep_the_order_of_insertion() {
    let r = |n: u64, s: u16| FileRef { record_no: n, sequence: s };
    let mut m: RefMap<&str> = RefMap::new();
    m.insert(r(9, 1), "a");
    m.insert(r(3, 1), "b");
    m.insert(r(9, 2), "c");
    m.insert(r(9, 1), "d");
    assert_eq!(m.keys(), &vec![r(9, 1), r(3, 1), r(9, 2)]);
    assert_eq!(m.values(), &vec!["d", "b", "c"]);
    assert_eq!(m.position(r(9, 2)), Some(2));
    assert_eq!(m.get(&r(3, 2)), None);
}

#[test]
fn keys_are_listed_in_ascending_order() {
    let mut m: HashMap<u64, ()> = HashMap::new();
    for k in [7, 1, u64::MAX, 0, 300] {
        m.insert(k, ());
    }
    assert_eq!(sorted_keys(&m), vec![0, 1, 7, 300, u64::MAX]);
}
