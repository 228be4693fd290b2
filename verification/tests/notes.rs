use litelist::model::{Document, Model, Note, Notification, Reminder};

fn note(id: u64) -> Note {
    let mut n = Note::default();
    n.id = id;
    n
}

fn notification(task_id: u64, acknowledged: bool) -> Notification {
    Notification {
        task_id,
        title: "t".to_string(),
        text: "x".to_string(),
        scheduled_at: 1,
        acknowledged,
    }
}

#[test]
fn new_note_gets_the_next_id_and_its_place() {
    let mut d = Document::default();
    assert_eq!(d.add_note(100, 200).unwrap(), 1);
    let n = &d.notes[0];
    assert_eq!((n.x, n.y), (124, 224));
    assert_eq!(n.title, "桌面便签");
    assert!(n.visible && !n.topmost);
    assert_eq!((n.width, n.height), (360, 360));
    d.notes.push(note(9));
    assert_eq!(d.add_note(0, 0).unwrap(), 10);
    assert_eq!((d.notes[2].x, d.notes[2].y), (96, 96));
}

#[test]
fn note_limit_is_200() {
    let mut d = Document::default();
    d.notes = (1..=200).map(note).collect();
    assert_eq!(d.add_note(0, 0).unwrap_err(), "便签已达到 200 张上限");
    assert_eq!(d.notes.len(), 200);
}

#[test]
fn hide_show_pin_and_delete_notes() {
    let mut d = Document::default();
    d.notes = vec![note(1), note(2), note(2)];
    d.hide_note(2);
    assert!(d.notes[0].visible && !d.notes[1].visible && d.notes[2].visible);
    d.show_notes();
    assert!(d.notes.iter().all(|n| n.visible));
    assert_eq!(d.toggle_note_pin(1), Some(true));
    assert_eq!(d.toggle_note_pin(1), Some(false));
    assert_eq!(d.toggle_note_pin(5), None);
    d.delete_note(2);
    assert_eq!(d.notes.len(), 1);
    assert_eq!(d.notes[0].id, 1);
}

#[test]
fn acknowledge_marks_the_first_unread_alerts() {
    let mut d = Document::default();
    d.notifications = vec![
        notification(1, false),
        notification(2, true),
        notification(3, false),
        notification(4, false),
    ];
    d.acknowledge(2);
    let marks: Vec<bool> = d.notifications.iter().map(|n| n.acknowledged).collect();
    assert_eq!(marks, vec![true, true, true, false]);
    d.acknowledge(0);
    assert!(!d.notifications[3].acknowledged);
}

#[test]
fn set_reminder_marks_it_as_configured() {
    let mut m = Model::new(Document::default());
    m.add("A");
    let r = Reminder {
        enabled: true,
        due_at: 1000,
        early_at: None,
        early_note: String::new(),
        due_sent: false,
        early_sent: false,
    };
    assert!(m.doc.set_reminder(1, r.clone()));
    assert_eq!(m.doc.tasks[0].reminder, Some(r.clone()));
    assert!(m.doc.tasks[0].reminder_configured);
    assert!(!m.doc.set_reminder(7, r));
    let d = m.doc.clone();
    assert!(Model::new(d).doc.tasks[0].reminder.is_some());
}
