use litelist::model::{Document, Goal, GoalNode, Model, Note, Reminder, MAX_JSON_ID};

fn doc_with_tasks(text: &str) -> Document {
    let mut m = Model::new(Document::default());
    m.add(text);
    m.doc
}

fn goal(id: u64, nodes: Vec<GoalNode>) -> Goal {
    Goal {
        id,
        title: format!("目标{id}"),
        description: String::new(),
        created_at: 0,
        completed_at: None,
        nodes,
    }
}

fn step(id: u64) -> GoalNode {
    GoalNode {
        id,
        title: format!("步骤{id}"),
        description: String::new(),
        requires: vec![],
        shape: 0,
        created_at: 0,
        completed_at: None,
    }
}

#[test]
fn version_one_is_upgraded() {
    let mut d = Document::default();
    d.version = 1;
    d.validate().unwrap();
    assert_eq!(d.version, 2);
}

#[test]
fn unsupported_version_names_itself() {
    let mut d = Document::default();
    d.version = 3;
    assert_eq!(d.validate().unwrap_err(), "不支持的数据版本 3，请使用对应版本的 LiteList");
}

#[test]
fn task_with_nul_or_zero_id_is_rejected() {
    let mut d = doc_with_tasks("A");
    d.tasks[0].text.push('\0');
    assert_eq!(d.validate().unwrap_err(), "任务数据包含无效内容或重复 ID");
    let mut d = doc_with_tasks("A");
    d.tasks[0].id = 0;
    assert!(d.validate().is_err());
}

#[test]
fn reminder_times_are_checked() {
    let mut d = doc_with_tasks("A");
    d.tasks[0].reminder = Some(Reminder {
        enabled: true,
        due_at: 1000,
        early_at: Some(1000),
        early_note: String::new(),
        due_sent: false,
        early_sent: false,
    });
    assert_eq!(d.validate().unwrap_err(), "无效的提醒时间");
    let mut d = doc_with_tasks("A");
    d.tasks[0].reminder = Some(Reminder {
        enabled: true,
        due_at: 253402214400001,
        early_at: None,
        early_note: String::new(),
        due_sent: false,
        early_sent: false,
    });
    assert_eq!(d.validate().unwrap_err(), "无效的提醒时间");
}

#[test]
fn next_ids_move_above_ids_in_use() {
    let mut d = doc_with_tasks("A\nB");
    d.next_id = 1;
    d.tasks[1].id = 40;
    d.goals = vec![goal(7, vec![step(12)])];
    d.validate().unwrap();
    assert_eq!(d.next_id, 41);
    assert_eq!(d.next_goal_id, 8);
    assert_eq!(d.next_node_id, 13);
}

#[test]
fn ids_at_the_json_limit_are_refused() {
    let mut d = doc_with_tasks("A");
    d.tasks[0].id = MAX_JSON_ID;
    assert_eq!(d.validate().unwrap_err(), "ID 超出跨平台 JSON 安全范围");
}

#[test]
fn notes_are_checked_and_sized() {
    let mut d = Document::default();
    let mut n = Note::default();
    n.id = 1;
    n.width = 10;
    n.height = 5000;
    d.notes = vec![n.clone()];
    d.validate().unwrap();
    assert_eq!((d.notes[0].width, d.notes[0].height), (260, 1400));
    let mut d = Document::default();
    d.notes = vec![n.clone(), n];
    assert_eq!(d.validate().unwrap_err(), "便签数据无效");
}

#[test]
fn goal_limits_and_bad_goals() {
    let mut d = Document::default();
    d.goals = (1..=101).map(|i| goal(i, vec![])).collect();
    assert_eq!(d.validate().unwrap_err(), "大目标数量超过 100 个上限");
    let mut d = Document::default();
    d.goals = vec![goal(1, vec![]), goal(1, vec![])];
    assert_eq!(d.validate().unwrap_err(), "大目标包含无效内容或重复 ID");
    let mut d = Document::default();
    d.goals = vec![goal(1, (1..=2001).map(step).collect())];
    assert_eq!(d.validate().unwrap_err(), "小目标数量超过 2000 个上限");
}

#[test]
fn settings_are_brought_into_range() {
    let mut d = Document::default();
    d.goals = vec![goal(3, vec![])];
    d.settings.width = 5000;
    d.settings.height = 1;
    d.settings.opacity = 10;
    d.settings.goal_node_shape = 9;
    d.settings.collapsed_goal_ids = vec![3, 4, 3];
    d.settings.draft = format!("a\0{}", "x".repeat(10_005));
    d.validate().unwrap();
    assert_eq!((d.settings.width, d.settings.height), (1000, 240));
    assert_eq!(d.settings.opacity, 51);
    assert_eq!(d.settings.goal_node_shape, 0);
    assert_eq!(d.settings.collapsed_goal_ids, vec![3]);
    assert_eq!(d.settings.draft.chars().count(), 10_000);
    assert!(d.settings.draft.starts_with("ax"));
}

#[test]
fn an_error_leaves_notes_cleaned_up_to_the_bad_one() {
    let mut d = Document::default();
    let mut a = Note::default();
    a.id = 1;
    a.width = 10;
    let mut b = a.clone();
    b.id = 1;
    let mut c = a.clone();
    c.id = 3;
    d.notes = vec![a, b, c];
    d.version = 1;
    assert!(d.validate().is_err());
    assert_eq!(d.version, 2);
    let widths: Vec<i32> = d.notes.iter().map(|n| n.width).collect();
    assert_eq!(widths, vec![260, 10, 10]);
}

#[test]
fn an_error_leaves_goals_cleaned_up_to_the_bad_step() {
    let mut d = Document::default();
    let mut first = goal(1, vec![step(1)]);
    first.title = " 一 ".to_string();
    let mut second = goal(2, vec![step(2), step(2), step(4)]);
    second.title = " 二 ".to_string();
    for n in &mut second.nodes {
        n.requires = vec![0];
    }
    let mut third = goal(3, vec![]);
    third.title = " 三 ".to_string();
    d.goals = vec![first, second, third];
    assert_eq!(d.validate().unwrap_err(), "小目标包含无效内容或重复 ID");
    assert_eq!(d.goals[0].title, "一");
    assert_eq!(d.goals[1].title, "二");
    assert_eq!(d.goals[1].nodes[0].requires, Vec::<u64>::new());
    assert_eq!(d.goals[1].nodes[1].requires, Vec::<u64>::new());
    assert_eq!(d.goals[1].nodes[2].requires, vec![0]);
    assert_eq!(d.goals[2].title, " 三 ");
}

#[test]
fn an_unsupported_version_changes_nothing() {
    let mut d = Document::default();
    d.version = 7;
    d.notes = vec![Note::default()];
    assert!(d.validate().is_err());
    assert_eq!(d.version, 7);
    assert_eq!(d.notes[0].id, 0);
}
