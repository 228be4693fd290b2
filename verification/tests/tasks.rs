use litelist::model::{Document, Model, Reminder};

fn reminder(due_at: u64, early_at: Option<u64>, note: &str) -> Reminder {
    Reminder {
        enabled: true,
        due_at,
        early_at,
        early_note: note.to_string(),
        due_sent: false,
        early_sent: false,
    }
}

#[test]
fn chinese_paste_complete_undo() {
    let mut m = Model::new(Document::default());
    assert_eq!(m.add("买咖啡\r\n\r\n整理方案 📝\n"), 2);
    m.toggle(1);
    assert_eq!(m.doc.pending(), 1);
    assert_eq!(m.doc.visible(true)[0].text, "买咖啡");
    m.undo();
    assert_eq!(m.doc.pending(), 2);
}

#[test]
fn delete_survives_restart_and_restore() {
    let mut m = Model::new(Document::default());
    m.add("重要任务");
    m.delete(1);
    let saved = m.doc.clone();
    let mut m = Model::new(saved);
    assert_eq!(m.doc.pending(), 0);
    assert!(m.restore_deleted());
    assert_eq!(m.doc.pending(), 1);
}

#[test]
fn reorder_ignores_archived_without_losing_it() {
    let mut m = Model::new(Document::default());
    m.add("A\nB\nC");
    m.toggle(2);
    m.reorder(1, 3);
    assert_eq!(
        m.doc
            .visible(false)
            .iter()
            .map(|t| t.text.as_str())
            .collect::<Vec<_>>(),
        vec!["C", "A"]
    );
    assert_eq!(m.doc.visible(true).len(), 1);
}

#[test]
fn undo_never_reuses_ids() {
    let mut m = Model::new(Document::default());
    m.add("A");
    m.undo();
    m.add("B");
    assert_eq!(m.doc.tasks[0].id, 2);
}

#[test]
fn reject_future_and_duplicate_ids() {
    let mut d = Document {
        version: 99,
        ..Default::default()
    };
    assert!(d.validate().is_err());
    let mut m = Model::new(Document::default());
    m.add("A\nB");
    m.doc.tasks[1].id = 1;
    assert!(m.doc.validate().is_err());
}

#[test]
fn early_due_restart_and_disabled() {
    let mut m = Model::new(Document::default());
    m.add("示例");
    m.doc.tasks[0].reminder = Some(reminder(1000, Some(500), "打印简历"));
    m.doc.tasks[0].reminder_configured = true;
    assert!(!m.collect_reminders(499));
    assert!(m.collect_reminders(500));
    assert!(!m.collect_reminders(501));
    let d = m.doc.clone();
    let mut m = Model::new(d);
    assert!(!m.collect_reminders(600));
    assert!(m.collect_reminders(1000));
    assert!(!m.collect_reminders(1001));
    assert_eq!(m.doc.notifications.len(), 2);
    m.doc.tasks[0].reminder.as_mut().unwrap().due_sent = false;
    m.doc.tasks[0].reminder.as_mut().unwrap().enabled = false;
    assert!(!m.collect_reminders(2000));
}

#[test]
fn overdue_coalesces_and_completed_suppresses() {
    let mut m = Model::new(Document::default());
    m.add("A");
    m.doc.tasks[0].reminder = Some(reminder(1000, Some(500), ""));
    m.doc.tasks[0].reminder_configured = true;
    assert!(m.collect_reminders(2000));
    assert_eq!(m.doc.notifications.len(), 1);
    m.toggle(1);
    m.doc.tasks[0].reminder.as_mut().unwrap().due_sent = false;
    assert!(!m.collect_reminders(2001));
}

#[test]
fn new_tasks_and_inferred_legacy_reminders_start_disabled() {
    let mut m = Model::new(Document::default());
    m.add("9月9日 19:00 vivo 宣讲会");
    assert!(m.doc.tasks[0].reminder.is_none());
    let mut d = m.doc.clone();
    d.tasks[0].reminder = Some(reminder(1000, None, ""));
    d.tasks[0].reminder_configured = false;
    assert!(Model::new(d).doc.tasks[0].reminder.is_none());
}

// ---- further cases of the task list ----

#[test]
fn add_skips_blank_lines_and_trims() {
    let mut m = Model::new(Document::default());
    assert_eq!(m.add("  \n\t x \r\n"), 1);
    assert_eq!(m.doc.tasks[0].text, "x");
    assert_eq!(m.doc.next_id, 2);
    assert_eq!(m.add(" \n \r\n"), 0);
    assert_eq!(m.doc.tasks.len(), 1);
}

#[test]
fn add_removes_nul_and_cuts_long_lines() {
    let mut m = Model::new(Document::default());
    let long: String = "字".repeat(10_005);
    assert_eq!(m.add(&format!("a\0b\n{long}")), 2);
    assert_eq!(m.doc.tasks[0].text, "ab");
    assert_eq!(m.doc.tasks[1].text.chars().count(), 10_000);
}

#[test]
fn add_refuses_when_ids_are_exhausted() {
    let mut d = Document::default();
    d.next_id = litelist::model::MAX_JSON_ID;
    let mut m = Model::new(d);
    assert_eq!(m.add("A"), 0);
    assert!(m.doc.tasks.is_empty());
    let mut d = Document::default();
    d.next_id = 0;
    let mut m = Model::new(d);
    assert_eq!(m.add("A"), 0);
}

#[test]
fn edit_trims_and_ignores_blank_or_unknown() {
    let mut m = Model::new(Document::default());
    m.add("A");
    m.edit(1, "  新文本  ");
    assert_eq!(m.doc.tasks[0].text, "新文本");
    m.edit(1, "   ");
    assert_eq!(m.doc.tasks[0].text, "新文本");
    m.edit(7, "x");
    assert_eq!(m.doc.tasks[0].text, "新文本");
    assert!(m.undo());
    assert_eq!(m.doc.tasks[0].text, "A");
}

#[test]
fn toggle_twice_reopens() {
    let mut m = Model::new(Document::default());
    m.add("A");
    m.toggle(1);
    assert!(m.doc.tasks[0].completed_at.is_some());
    m.toggle(1);
    assert!(m.doc.tasks[0].completed_at.is_none());
    assert_eq!(m.doc.pending(), 1);
}

#[test]
fn restore_takes_latest_deleted_first() {
    let mut m = Model::new(Document::default());
    m.add("A\nB");
    m.doc.tasks[0].deleted_at = Some(10);
    m.doc.tasks[1].deleted_at = Some(20);
    assert!(m.restore_deleted());
    assert!(m.doc.tasks[1].deleted_at.is_none());
    assert_eq!(m.doc.tasks[0].deleted_at, Some(10));
    assert!(m.restore_deleted());
    assert!(!m.restore_deleted());
}

#[test]
fn undo_on_empty_history_does_nothing() {
    let mut m = Model::new(Document::default());
    assert!(!m.undo());
    m.add("A");
    assert!(m.undo());
    assert!(m.doc.tasks.is_empty());
    assert!(!m.undo());
}

#[test]
fn history_keeps_thirty_changes() {
    let mut m = Model::new(Document::default());
    for i in 0..35 {
        m.add(&format!("t{i}"));
    }
    let mut undone = 0;
    while m.undo() {
        undone += 1;
    }
    assert_eq!(undone, 30);
    assert_eq!(m.doc.tasks.len(), 5);
}

#[test]
fn undo_keeps_sent_alerts_sent() {
    let mut m = Model::new(Document::default());
    m.add("A");
    m.doc.tasks[0].reminder = Some(reminder(1000, Some(500), ""));
    m.doc.tasks[0].reminder_configured = true;
    m.edit(1, "B");
    assert!(m.collect_reminders(1500));
    assert!(m.undo());
    let r = m.doc.tasks[0].reminder.as_ref().unwrap();
    assert!(r.due_sent);
    assert!(!r.early_sent);
    assert_eq!(m.doc.tasks[0].text, "A");
    assert!(!m.collect_reminders(1600));
}

#[test]
fn reorder_with_unknown_or_same_id_does_nothing() {
    let mut m = Model::new(Document::default());
    m.add("A\nB");
    m.reorder(1, 1);
    m.reorder(1, 9);
    assert_eq!(m.doc.tasks[0].id, 1);
    m.reorder(2, 1);
    assert_eq!(m.doc.tasks[0].id, 2);
    assert_eq!(m.doc.tasks[1].id, 1);
    assert!(m.undo());
    assert_eq!(m.doc.tasks[0].id, 1);
    assert!(m.undo());
    assert!(m.doc.tasks.is_empty());
    assert!(!m.undo());
}

#[test]
fn alert_texts_name_the_task_and_time() {
    let mut m = Model::new(Document::default());
    m.add("开会");
    m.doc.tasks[0].reminder = Some(reminder(1000, Some(500), "带电脑"));
    m.doc.tasks[0].reminder_configured = true;
    assert!(m.collect_reminders(600));
    assert_eq!(m.doc.notifications[0].title, "待办提前提醒");
    assert_eq!(m.doc.notifications[0].text, "开会\r\n正式时间：1000\r\n带电脑");
    assert_eq!(m.doc.notifications[0].scheduled_at, 500);
    assert!(m.collect_reminders(1000));
    assert_eq!(m.doc.notifications[1].title, "待办到点提醒");
    assert_eq!(m.doc.notifications[1].text, "开会\r\n时间：1000");
    assert_eq!(m.doc.notifications[1].task_id, 1);
    assert!(!m.doc.notifications[1].acknowledged);
}

#[test]
fn deleted_task_sends_no_alert() {
    let mut m = Model::new(Document::default());
    m.add("A");
    m.doc.tasks[0].reminder = Some(reminder(1000, None, ""));
    m.doc.tasks[0].reminder_configured = true;
    m.delete(1);
    assert!(!m.collect_reminders(5000));
    assert!(m.doc.notifications.is_empty());
}

#[test]
fn visible_splits_open_and_completed() {
    let mut m = Model::new(Document::default());
    m.add("A\nB\nC");
    m.toggle(2);
    m.delete(3);
    let open: Vec<u64> = m.doc.visible(false).iter().map(|t| t.id).collect();
    let done: Vec<u64> = m.doc.visible(true).iter().map(|t| t.id).collect();
    assert_eq!(open, vec![1]);
    assert_eq!(done, vec![2]);
    assert_eq!(m.doc.pending(), 1);
}

#[test]
fn alert_texts_use_the_given_time_format() {
    let mut m = Model::new(Document::default());
    m.add("开会");
    m.doc.tasks[0].reminder = Some(reminder(1000, Some(500), "带电脑"));
    m.doc.tasks[0].reminder_configured = true;
    assert!(m.collect_reminders_shown(700, |t| format!("<{t}>")));
    assert_eq!(m.doc.notifications[0].text, "开会\r\n正式时间：<1000>\r\n带电脑");
    assert!(!m.collect_reminders_shown(800, |t| format!("<{t}>")));
    assert!(m.collect_reminders_shown(1000, |_| "19:00".to_string()));
    assert_eq!(m.doc.notifications[1].text, "开会\r\n时间：19:00");
}

#[test]
fn import_keeps_settings_and_starts_a_new_history() {
    let mut m = Model::new(Document::default());
    m.add("A");
    m.doc.settings.opacity = 90;
    let mut imported = Document::default();
    imported.settings.opacity = 200;
    imported.next_id = 5;
    imported.tasks = m.doc.tasks.clone();
    imported.tasks[0].reminder = Some(reminder(1000, None, ""));
    m.import(imported);
    assert_eq!(m.doc.settings.opacity, 90);
    assert_eq!(m.doc.next_id, 5);
    assert!(m.doc.tasks[0].reminder.is_none());
    assert!(!m.undo());
}
