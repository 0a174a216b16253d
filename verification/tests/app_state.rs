use dayu_disk_manager::app_state::{
    is_elevated_scan_start, link_item, recover_pending_decisions, report_pending_recovery,
};
use dayu_disk_manager::journal::Journal;
use dayu_disk_manager::junction::verify;
use dayu_disk_manager::error::AppError;
use dayu_disk_manager::models::{JournalEntry, Migration, MigrationStatus};

fn entry(stage: &str, mid: &str) -> JournalEntry {
    JournalEntry {
        task_id: "t1".into(),
        op: "migrate".into(),
        migration_id: mid.into(),
        stage: stage.into(),
        src: "C:/s".into(),
        dst: "D:/d".into(),
        tmp: "D:/d.tmp".into(),
        old_path: "C:/s.old".into(),
        time: "2026-07-18T00:00:00Z".into(),
        final_mark: None,
    }
}

#[test]
fn copied_stage_decision_is_clean_tmp() {
    let d = recover_pending_decisions(&[entry("copied", "m1")]);
    assert_eq!(d.len(), 1);
    assert!(d[0].2.contains("清 tmp"));
}

#[test]
fn junction_created_decision_keeps_link() {
    let d = recover_pending_decisions(&[entry("junction_created", "m2")]);
    assert!(d[0].2.contains("已建链"));
}

#[test]
fn restore_stage_decision_recognized() {
    let d = recover_pending_decisions(&[entry("restore_copied", "m3")]);
    assert!(d[0].2.contains("还原"));
}

#[test]
fn every_stage_has_its_advice() {
    let stages = [
        ("created", "清 tmp 可重试"),
        ("copied", "清 tmp 可重试"),
        ("manifest_ok", "清 tmp 可重试"),
        ("source_renamed", "oldPath 改回原名可重试"),
        ("incremental_synced", "oldPath 改回原名可重试"),
        ("junction_created", "已建链，补写或确认"),
        ("pending_record", "已建链，补写或确认"),
        ("record_written", "已建链，补写或确认"),
        ("restore_switched", "还原中断，按阶段恢复"),
        ("renaming_source", "待人工确认"),
        ("old_recycled", "待人工确认"),
        ("", "待人工确认"),
    ];
    for (stage, advice) in stages {
        let d = recover_pending_decisions(&[entry(stage, "m")]);
        assert_eq!(d, vec![("m".to_string(), stage.to_string(), advice.to_string())]);
    }
    assert!(recover_pending_decisions(&[]).is_empty());
}

#[test]
fn status_serializes_snake_case() {
    let s = format!("\"{}\"", MigrationStatus::OldPendingDelete.as_str());
    assert_eq!(s, "\"old_pending_delete\"");
    assert_eq!(s.trim_matches('"'), "old_pending_delete");
    assert_eq!(format!("\"{}\"", MigrationStatus::Active.as_str()), "\"active\"");
    assert_eq!(
        format!("\"{}\"", MigrationStatus::TargetPendingDelete.as_str()),
        "\"target_pending_delete\""
    );
    assert_eq!(
        format!("\"{}\"", MigrationStatus::PendingManualConfirm.as_str()),
        "\"pending_manual_confirm\""
    );
}

#[test]
fn parse_elevated_scan_flag_present() {
    assert!(is_elevated_scan_start(&["dayu".to_string(), "--elevated-scan".to_string()]));
}

#[test]
fn parse_elevated_scan_flag_absent() {
    assert!(!is_elevated_scan_start(&["dayu".to_string()]));
}

#[test]
fn parse_elevated_scan_flag_mixed() {
    assert!(is_elevated_scan_start(&[
        "dayu".to_string(),
        "--other".to_string(),
        "--elevated-scan".to_string(),
    ]));
}

#[test]
fn reports_pending_recovery_once_with_pending_count() {
    let mut journal = Journal::new();
    journal
        .begin(
            "task-1",
            "migration-1",
            "migrate",
            "C:/source",
            "D:/target",
            "D:/target.tmp",
            "C:/source.old",
        )
        .unwrap();

    let reported = report_pending_recovery(&journal);

    assert_eq!(reported, Some(1));
}

#[test]
fn nothing_pending_is_not_reported() {
    let mut journal = Journal::new();
    assert_eq!(report_pending_recovery(&journal), None);
    journal.begin("t", "m", "migrate", "C:/a", "D:/a", "D:/a.tmp", "C:/a.old").unwrap();
    journal.complete("t").unwrap();
    assert_eq!(report_pending_recovery(&journal), None);
}

#[test]
fn link_items_show_their_migration() {
    let m = Migration {
        id: "u1".into(),
        schema_version: 1,
        source: "C:\\a".into(),
        target: "D:\\a".into(),
        old_path: String::new(),
        preset: Some("wechat".into()),
        created_at: "2026-07-18T00:00:00Z".into(),
        status: MigrationStatus::OldPendingDelete,
        source_volume_serial: "C".into(),
        target_volume_serial: "D".into(),
        recycle_bin_ref: String::new(),
        pending_cleanup: None,
    };
    let item = link_item(&m, true, false);
    assert_eq!(item.id, "u1");
    assert_eq!(item.source, "C:\\a");
    assert_eq!(item.target, "D:\\a");
    assert_eq!(item.preset.as_deref(), Some("wechat"));
    assert_eq!(item.status, "old_pending_delete");
    assert!(item.valid);
    assert!(item.broken);
}

#[test]
fn a_link_is_whole_only_with_its_target() {
    assert!(verify(true, &Ok(true)));
    assert!(!verify(true, &Ok(false)));
    assert!(!verify(false, &Ok(true)));
    assert!(!verify(true, &Err(AppError::Junction("resolve 失败".into()))));
}
