use litelist::model::Document;
use litelist::storage::{choose_copy, plan_save, too_large, Loaded, SavePlan};

fn doc_with_opacity(opacity: u8) -> Document {
    let mut d = Document::default();
    d.settings.opacity = opacity;
    d
}

#[test]
fn nothing_stored_starts_fresh() {
    let r = choose_copy(false, false, Err("x".into()), None, Err("y".into()), "/data");
    assert!(matches!(r, Loaded::Fresh));
}

#[test]
fn good_main_file_is_used() {
    let r = choose_copy(true, true, Ok(doc_with_opacity(100)), Some(2), Ok(doc_with_opacity(220)), "/data");
    match r {
        Loaded::Main(d) => assert_eq!(d.settings.opacity, 100),
        _ => panic!("main copy expected"),
    }
}

#[test]
fn damaged_main_falls_back_to_backup() {
    let r = choose_copy(true, true, Err("expected value".into()), None, Ok(doc_with_opacity(220)), "/data");
    match r {
        Loaded::Backup { doc, set_aside, notice } => {
            assert_eq!(doc.settings.opacity, 220);
            assert!(set_aside);
            assert_eq!(notice, "主数据异常，已从备份恢复。原文件已保留。");
        }
        _ => panic!("backup copy expected"),
    }
    let r = choose_copy(false, true, Err("missing".into()), None, Ok(Document::default()), "/data");
    assert!(matches!(r, Loaded::Backup { set_aside: false, .. }));
}

#[test]
fn newer_format_is_never_downgraded() {
    let r = choose_copy(true, true, Err("不支持的数据版本 99".into()), Some(99), Ok(Document::default()), "/data");
    match r {
        Loaded::Refused(e) => assert_eq!(e, "不支持的数据版本 99"),
        _ => panic!("refusal expected"),
    }
}

#[test]
fn no_usable_copy_refuses_with_both_places() {
    let r = choose_copy(true, false, Err("bad".into()), None, Err("missing".into()), "/data");
    match r {
        Loaded::Refused(e) => assert_eq!(e, "数据及备份无法读取，已停止启动以保护原文件。\n/data\nbad"),
        _ => panic!("refusal expected"),
    }
}

#[test]
fn size_limit_is_32_mib() {
    assert!(!too_large(32 * 1024 * 1024));
    assert!(too_large(32 * 1024 * 1024 + 1));
}

#[test]
fn saving_never_overwrites_an_unreadable_main_file() {
    assert!(matches!(plan_save(false, false), SavePlan::Write { keep_backup: false }));
    assert!(matches!(plan_save(true, true), SavePlan::Write { keep_backup: true }));
    match plan_save(true, false) {
        SavePlan::Refuse(e) => assert_eq!(e, "数据文件无法读取，已停止保存以保护原文件。"),
        _ => panic!("refusal expected"),
    }
}
