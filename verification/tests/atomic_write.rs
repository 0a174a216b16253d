use dayu_disk_manager::atomic_write::{AtomicWrite, WriteAction, WriteEvent};
use dayu_disk_manager::error::AppError;

/// Three files in memory.
#[derive(Clone, Default)]
struct Disk {
    main: Option<&'static str>,
    tmp: Option<&'static str>,
    backup: Option<&'static str>,
}

/// Replaces the file; the actions in `broken` fail. The disk is looked at
/// after every step.
fn replace(disk: &mut Disk, broken: &[WriteAction], look: &mut dyn FnMut(&Disk)) -> Result<(), AppError> {
    let mut write = AtomicWrite::start();
    loop {
        let action = write.action();
        let ok = !broken.contains(&action);
        if ok {
            match action {
                WriteAction::WriteTmp => disk.tmp = Some("new"),
                WriteAction::RemoveBackup => disk.backup = None,
                WriteAction::KeepBackup => disk.backup = disk.main.take(),
                WriteAction::Replace => disk.main = disk.tmp.take(),
                WriteAction::PutBack => disk.main = disk.backup.take(),
                WriteAction::MainExists | WriteAction::Stop => {}
            }
        }
        look(disk);
        let event = match action {
            WriteAction::Stop => return write.finish(),
            WriteAction::MainExists => WriteEvent::Answer(disk.main.is_some()),
            _ if ok => WriteEvent::Done(Ok(())),
            _ => WriteEvent::Done(Err(AppError::Store("disk".into()))),
        };
        write.advance(event);
    }
}

fn used() -> Disk {
    Disk { main: Some("old"), tmp: None, backup: Some("older") }
}

#[test]
fn first_write_makes_no_backup() {
    let mut disk = Disk::default();
    replace(&mut disk, &[], &mut |_| {}).unwrap();
    assert_eq!(disk.main, Some("new"));
    assert_eq!(disk.backup, None);
    assert_eq!(disk.tmp, None);
}

#[test]
fn later_writes_keep_the_last_content() {
    let mut disk = used();
    replace(&mut disk, &[], &mut |_| {}).unwrap();
    assert_eq!(disk.main, Some("new"));
    assert_eq!(disk.backup, Some("old"));
}

#[test]
fn a_backup_that_fails_stops_nothing() {
    let mut disk = used();
    replace(&mut disk, &[WriteAction::RemoveBackup, WriteAction::KeepBackup], &mut |_| {}).unwrap();
    assert_eq!(disk.main, Some("new"));
    assert_eq!(disk.backup, Some("older"));
}

#[test]
fn a_failed_write_changes_nothing() {
    let mut disk = used();
    assert!(replace(&mut disk, &[WriteAction::WriteTmp], &mut |_| {}).is_err());
    assert_eq!(disk.main, Some("old"));
    assert_eq!(disk.backup, Some("older"));
}

#[test]
fn a_failed_replacement_is_undone() {
    let mut disk = used();
    let e = replace(&mut disk, &[WriteAction::Replace], &mut |_| {}).unwrap_err();
    assert_eq!(e.describe(), "store 错误: disk");
    assert_eq!(disk.main, Some("old"));
}

#[test]
fn the_content_is_never_lost() {
    let all = [
        WriteAction::WriteTmp,
        WriteAction::RemoveBackup,
        WriteAction::KeepBackup,
        WriteAction::Replace,
        WriteAction::PutBack,
    ];
    for mask in 0..32u32 {
        let broken: Vec<WriteAction> =
            (0..5).filter(|i| mask & (1 << i) != 0).map(|i| all[i as usize]).collect();
        let mut disk = used();
        let result = replace(&mut disk, &broken, &mut |d| {
            let here = d.main == Some("old") || d.main == Some("new") || d.backup == Some("old");
            assert!(here, "{broken:?}");
        });
        assert_eq!(result.is_ok(), disk.main == Some("new"));
    }
}
