use litelist::reminders::{
    canonical_string, configured, infer, infer_local, reminder_from, utc_instant, LocalDateTime,
};

#[test]
fn parses_user_example() {
    assert_eq!(infer("9月9日 19:00 vivo 宣讲会", 2026).unwrap(), "2026-09-09 19:00");
}

#[test]
fn rejects_invalid_dates() {
    assert!(infer("2月30日 19:00", 2026).is_none());
    assert!(infer("9月9日 25:00", 2026).is_none());
    assert!(infer("没有日期 19:00", 2026).is_none());
}

#[test]
fn local_round_trip() {
    let t = infer_local("2026-09-09 19:00", 2026).unwrap();
    assert_eq!(canonical_string(t), "2026-09-09 19:00");
}

#[test]
fn earlier_must_be_earlier() {
    assert!(configured(true, "2026-09-09 19:00", "2026-09-09 20:00", "", None, 2026, utc_instant).is_err());
}

#[test]
fn preserves_delivery_on_unrelated_edit() {
    let mut old = configured(true, "2026-09-09 19:00", "", "", None, 2026, utc_instant)
        .unwrap()
        .unwrap();
    old.due_sent = true;
    let again = configured(true, "2026-09-09 19:00", "", "", Some(&old), 2026, utc_instant)
        .unwrap()
        .unwrap();
    assert!(again.due_sent);
}

// ---- further cases of dates and reminders ----

#[test]
fn infers_the_accepted_forms() {
    assert_eq!(infer("2026-09-09 19:00", 2000).unwrap(), "2026-09-09 19:00");
    assert_eq!(infer("9-9 7:05 晨会", 2027).unwrap(), "2027-09-09 07:05");
    assert_eq!(infer("2028年2月29日 8：30", 2026).unwrap(), "2028-02-29 08:30");
    assert_eq!(infer("3月1日 0:00", 2026).unwrap(), "2026-03-01 00:00");
}

#[test]
fn rejects_malformed_dates() {
    assert!(infer("2027年2月29日 8:30", 2026).is_none());
    assert!(infer("9日9月 19:00", 2026).is_none());
    assert!(infer("2026-13-01 10:00", 2026).is_none());
    assert!(infer("1969-01-01 10:00", 2026).is_none());
    assert!(infer("9-9 10:60", 2026).is_none());
    assert!(infer("1-2-3-4 10:00", 2026).is_none());
    assert!(infer("无冒号", 2026).is_none());
}

#[test]
fn utc_instant_counts_from_the_epoch() {
    let t = LocalDateTime { year: 1970, month: 1, day: 1, hour: 0, minute: 0 };
    assert_eq!(utc_instant(t).unwrap(), 0);
    let t = LocalDateTime { year: 2000, month: 3, day: 1, hour: 12, minute: 30 };
    assert_eq!(utc_instant(t).unwrap(), 951_913_800_000);
    let bad = LocalDateTime { year: 2026, month: 2, day: 30, hour: 0, minute: 0 };
    assert_eq!(utc_instant(bad).unwrap_err(), "无法转换此日期时间");
}

#[test]
fn blank_due_time() {
    assert_eq!(
        configured(true, "  ", "", "", None, 2026, utc_instant).unwrap_err(),
        "开启提醒前，请先填写到点时间"
    );
    assert!(configured(false, "  ", "", "", None, 2026, utc_instant).unwrap().is_none());
}

#[test]
fn bad_due_text_is_reported() {
    assert_eq!(
        configured(true, "明天", "", "", None, 2026, utc_instant).unwrap_err(),
        "请输入有效日期，例如 2026-09-09 19:00（也支持 9月9日 19:00）"
    );
}

#[test]
fn early_reminder_and_note() {
    let r = configured(true, "9月9日 19:00", "9月9日 18:30", "带简历", None, 2026, utc_instant)
        .unwrap()
        .unwrap();
    assert_eq!(r.due_at - r.early_at.unwrap(), 30 * 60 * 1000);
    assert_eq!(r.early_note, "带简历");
    assert!(r.enabled && !r.due_sent && !r.early_sent);
}

#[test]
fn converter_errors_pass_through() {
    let fail = |_t: LocalDateTime| -> Result<u64, String> { Err("无法转换所选日期时间".to_string()) };
    assert_eq!(
        configured(true, "2026-09-09 19:00", "", "", None, 2026, fail).unwrap_err(),
        "无法转换所选日期时间"
    );
}

#[test]
fn reminder_from_keeps_sent_marks_only_for_same_times() {
    let mut old = reminder_from(true, 1000, Some(500), "x", None).unwrap();
    old.due_sent = true;
    old.early_sent = true;
    let same = reminder_from(true, 1000, Some(500), "y", Some(&old)).unwrap();
    assert!(same.due_sent && same.early_sent);
    let moved = reminder_from(true, 2000, Some(400), "y", Some(&old)).unwrap();
    assert!(!moved.due_sent && !moved.early_sent);
    assert_eq!(
        reminder_from(true, 1000, Some(1000), "", None).unwrap_err(),
        "提前提醒时间必须早于到点时间"
    );
    let long = "长".repeat(1200);
    assert_eq!(reminder_from(false, 1, None, &long, None).unwrap().early_note.chars().count(), 1000);
}

#[test]
fn canonical_form_reads_back_unchanged() {
    let dates = [
        LocalDateTime { year: 1970, month: 1, day: 1, hour: 0, minute: 0 },
        LocalDateTime { year: 2024, month: 2, day: 29, hour: 23, minute: 59 },
        LocalDateTime { year: 9999, month: 12, day: 31, hour: 7, minute: 5 },
    ];
    for t in dates {
        let text = canonical_string(t);
        assert_eq!(infer_local(&text, 2000), Some(t));
        assert_eq!(infer(&format!("  {text}  "), 1999).unwrap(), text);
    }
}
