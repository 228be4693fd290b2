use litelist::model::{Document, Goal, GoalNode};

fn node(id: u64, title: &str, requires: Vec<u64>, shape: i8) -> GoalNode {
    GoalNode {
        id,
        title: title.to_string(),
        description: String::new(),
        requires,
        shape,
        created_at: 1_700_000_000_000,
        completed_at: None,
    }
}

/// The shared version-2 goal document: two goals, the first with three
/// steps where the third needs the other two.
fn goal_fixture() -> Document {
    let mut d = Document::default();
    d.next_goal_id = 1;
    d.next_node_id = 1;
    d.goals = vec![
        Goal {
            id: 1,
            title: "发布 Plasma 版本".to_string(),
            description: "完成首个公开版本".to_string(),
            created_at: 1_700_000_000_000,
            completed_at: None,
            nodes: vec![
                node(1, "完成界面", vec![], -1),
                node(2, "完成测试", vec![1], 2),
                node(3, "发布", vec![1, 2], 1),
            ],
        },
        Goal {
            id: 2,
            title: "整理笔记".to_string(),
            description: String::new(),
            created_at: 1_700_000_000_000,
            completed_at: None,
            nodes: vec![],
        },
    ];
    d
}

fn level_of(groups: &[Vec<u64>], id: u64) -> usize {
    groups.iter().position(|g| g.contains(&id)).unwrap()
}

#[test]
fn shared_goal_fixture_round_trips_without_loss() {
    let mut document = goal_fixture();
    document.validate().unwrap();
    assert_eq!(document.goals.len(), 2);
    assert_eq!(document.goals[0].nodes[1].shape, 2);
    assert_eq!(document.goals[0].nodes[2].requires, vec![1, 2]);
    assert_eq!(document.next_goal_id, 3);
    assert_eq!(document.next_node_id, 4);
}

#[test]
fn goal_rules_match_plasma_contract() {
    let mut document = Document::default();
    let goal_id = document
        .add_goal("发布 Plasma 版本", "完成首个公开版本")
        .unwrap();
    let ui = document
        .add_goal_node(goal_id, "完成界面", "", vec![], -1)
        .unwrap();
    let test = document
        .add_goal_node(goal_id, "完成测试", "", vec![ui], 2)
        .unwrap();
    let publish = document
        .add_goal_node(goal_id, "发布", "", vec![ui, test], 1)
        .unwrap();
    let goal = document.find_goal(goal_id).unwrap();
    assert!(goal.node_unlocked(ui));
    assert!(!goal.node_unlocked(test));
    let layout = goal.layout_levels();
    assert_eq!(level_of(&layout, test), 1);
    assert_eq!(level_of(&layout, publish), 2);
    assert!(document.toggle_goal_node(goal_id, test, 100).is_err());
    assert_eq!(document.toggle_goal_node(goal_id, ui, 100).unwrap(), true);
    assert_eq!(document.toggle_goal_node(goal_id, test, 200).unwrap(), true);
    assert!(document.toggle_goal_node(goal_id, ui, 300).is_err());
    assert_eq!(
        document.toggle_goal_node(goal_id, publish, 300).unwrap(),
        true
    );
    assert_eq!(document.find_goal(goal_id).unwrap().completed_at, Some(300));
    document
        .update_goal(goal_id, "统一功能", "保持平台原生界面")
        .unwrap();
    document
        .update_goal_node(goal_id, publish, "Windows 界面", "GDI+", 1)
        .unwrap();
    assert_eq!(document.find_goal(goal_id).unwrap().title, "统一功能");
    assert_eq!(
        document
            .find_goal(goal_id)
            .unwrap()
            .find_node(publish)
            .unwrap()
            .shape,
        1
    );
    assert!(document.delete_goal_node(goal_id, ui).is_err());
    document.delete_goal_node(goal_id, publish).unwrap();
    document.delete_goal_node(goal_id, test).unwrap();
    document.delete_goal_node(goal_id, ui).unwrap();
    document.delete_goal(goal_id).unwrap();
    assert!(document.goals.is_empty());
}

#[test]
fn rejects_invalid_goal_dependencies() {
    let mut document = goal_fixture();
    document.goals[0].nodes[0].requires = vec![3];
    assert!(document.validate().is_err());
}

// ---- further cases of goals ----

#[test]
fn cycle_is_reported_with_its_message() {
    let mut document = goal_fixture();
    document.goals[0].nodes[0].requires = vec![3];
    assert_eq!(document.validate().unwrap_err(), "小目标前置条件形成了循环");
}

#[test]
fn missing_or_self_prerequisite_is_rejected() {
    let mut document = goal_fixture();
    document.goals[0].nodes[0].requires = vec![9];
    assert_eq!(
        document.validate().unwrap_err(),
        "小目标包含不存在或指向自身的前置条件"
    );
    let mut document = goal_fixture();
    document.goals[0].nodes[1].requires = vec![2];
    assert!(document.validate().is_err());
}

#[test]
fn validate_cleans_prerequisites_and_shapes() {
    let mut document = goal_fixture();
    document.goals[0].nodes[2].requires = vec![0, 1, 2, 1, 0];
    document.goals[0].nodes[0].shape = 7;
    document.goals[0].title = "  \0目标  ".to_string();
    document.validate().unwrap();
    assert_eq!(document.goals[0].nodes[2].requires, vec![1, 2]);
    assert_eq!(document.goals[0].nodes[0].shape, -1);
    assert_eq!(document.goals[0].title, "目标");
}

#[test]
fn duplicate_node_ids_are_rejected() {
    let mut document = goal_fixture();
    document.goals[1].nodes = vec![node(2, "重复", vec![], 0)];
    assert_eq!(
        document.validate().unwrap_err(),
        "小目标包含无效内容或重复 ID"
    );
}

#[test]
fn add_goal_errors() {
    let mut document = Document::default();
    assert_eq!(document.add_goal("  \0 ", "").unwrap_err(), "请输入大目标名称");
    for i in 0..100 {
        document.add_goal(&format!("目标{i}"), "").unwrap();
    }
    assert_eq!(document.add_goal("再来一个", "").unwrap_err(), "大目标已达到 100 个上限");
    assert_eq!(document.next_goal_id, 101);
}

#[test]
fn add_goal_node_errors() {
    let mut document = Document::default();
    let g = document.add_goal("目标", "").unwrap();
    assert_eq!(
        document.add_goal_node(g, " ", "", vec![], 0).unwrap_err(),
        "请输入小目标名称"
    );
    assert_eq!(
        document.add_goal_node(g + 1, "步骤", "", vec![], 0).unwrap_err(),
        "找不到大目标"
    );
    assert_eq!(
        document.add_goal_node(g, "步骤", "", vec![42], 0).unwrap_err(),
        "小目标包含不存在的前置条件"
    );
    let a = document.add_goal_node(g, "步骤", "", vec![], 9).unwrap();
    let b = document.add_goal_node(g, "下一步", "", vec![a, a], 0).unwrap();
    let goal = document.find_goal(g).unwrap();
    assert_eq!(goal.find_node(a).unwrap().shape, -1);
    assert_eq!(goal.find_node(b).unwrap().requires, vec![a]);
}

#[test]
fn goal_completion_follows_steps() {
    let mut document = Document::default();
    let g = document.add_goal("目标", "").unwrap();
    let a = document.add_goal_node(g, "一", "", vec![], 0).unwrap();
    assert_eq!(document.toggle_goal_node(g, a, 50).unwrap(), true);
    assert_eq!(document.find_goal(g).unwrap().completed_at, Some(50));
    let b = document.add_goal_node(g, "二", "", vec![a], 0).unwrap();
    assert_eq!(document.find_goal(g).unwrap().completed_at, None);
    assert_eq!(document.toggle_goal_node(g, b, 60).unwrap(), true);
    assert_eq!(document.find_goal(g).unwrap().completed_at, Some(60));
    assert_eq!(document.toggle_goal_node(g, b, 70).unwrap(), false);
    assert_eq!(document.find_goal(g).unwrap().completed_at, None);
    document.delete_goal_node(g, b).unwrap();
    assert!(document.find_goal(g).unwrap().completed_at.is_some());
    let tally = document.find_goal(g).unwrap().tally();
    assert_eq!((tally.completed, tally.total), (1, 1));
}

#[test]
fn toggle_and_delete_unknown_targets() {
    let mut document = Document::default();
    let g = document.add_goal("目标", "").unwrap();
    assert_eq!(document.toggle_goal_node(g + 5, 1, 0).unwrap_err(), "找不到大目标");
    assert_eq!(document.toggle_goal_node(g, 1, 0).unwrap_err(), "找不到小目标");
    assert_eq!(document.delete_goal_node(g, 1).unwrap_err(), "找不到小目标");
    assert!(document.delete_goal(g + 5).is_err());
    assert!(document.update_goal(g, " ", "").is_err());
}

#[test]
fn layout_levels_of_a_chain_and_a_fork() {
    let mut document = Document::default();
    let g = document.add_goal("目标", "").unwrap();
    let a = document.add_goal_node(g, "a", "", vec![], 0).unwrap();
    let b = document.add_goal_node(g, "b", "", vec![], 0).unwrap();
    let c = document.add_goal_node(g, "c", "", vec![a], 0).unwrap();
    let d = document.add_goal_node(g, "d", "", vec![c, b], 0).unwrap();
    let groups = document.find_goal(g).unwrap().layout_levels();
    assert_eq!(groups, vec![vec![a, b], vec![c], vec![d]]);
    let empty = Goal {
        id: 9,
        title: "空".to_string(),
        description: String::new(),
        created_at: 0,
        completed_at: None,
        nodes: vec![],
    };
    assert!(empty.layout_levels().is_empty());
    assert!(empty.dependencies_acyclic());
}

#[test]
fn completion_rules_hold_with_repeated_step_ids() {
    let mut document = Document::default();
    let mut a = node(1, "一", vec![], 0);
    a.completed_at = Some(5);
    let b = node(1, "重复", vec![], 0);
    let c = node(2, "二", vec![1], 0);
    document.goals = vec![goal_with(7, vec![a, b, c])];
    assert_eq!(document.toggle_goal_node(7, 2, 10).unwrap(), true);
    assert_eq!(document.goals[0].completed_at, None);
    assert!(document.toggle_goal_node(7, 1, 11).is_err());
    assert_eq!(document.toggle_goal_node(7, 2, 12).unwrap(), false);
    document.next_node_id = 3;
    let d = document.add_goal_node(7, "三", "", vec![2], 0).unwrap();
    assert_eq!(d, 3);
    assert!(document.toggle_goal_node(7, d, 13).is_err());
}

fn goal_with(id: u64, nodes: Vec<GoalNode>) -> Goal {
    Goal {
        id,
        title: "目标".to_string(),
        description: String::new(),
        created_at: 0,
        completed_at: None,
        nodes,
    }
}

#[test]
fn known_goals_keeps_ids_of_existing_goals() {
    let mut document = Document::default();
    let a = document.add_goal("甲", "").unwrap();
    let b = document.add_goal("乙", "").unwrap();
    assert_eq!(document.known_goals(&vec![b, 99, a, b]), vec![b, a, b]);
}
