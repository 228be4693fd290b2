//! The task document: tasks, reminders, notes, goals and their rules.
//! Deleted tasks stay in the document and can be restored.
use vstd::prelude::*;

pub mod document;
pub mod ids;
pub mod notes;
pub mod goal;
pub mod graph;
pub mod soundness;
pub mod tasks;
pub mod validate;

pub use tasks::{now, Model};
pub use goal::GoalTally;




verus! {

/// The largest integer that a JSON number keeps exactly on every platform (2^53 - 1).
pub const MAX_JSON_ID: u64 = 9_007_199_254_740_991;

#[derive(Debug, PartialEq)]
pub struct Task {
    pub id: u64,
    pub text: String,
    pub created_at: u64,
    pub completed_at: Option<u64>,
    pub deleted_at: Option<u64>,
    pub reminder: Option<Reminder>,
    /// Old releases inferred reminders from text. Only explicit settings survive migration.
    pub reminder_configured: bool,
    pub schedule_checked: bool,
}

#[derive(Debug, PartialEq)]
pub struct Reminder {
    pub enabled: bool,
    pub due_at: u64,
    pub early_at: Option<u64>,
    pub early_note: String,
    pub due_sent: bool,
    pub early_sent: bool,
}

#[derive(Debug, Clone, PartialEq)]
pub struct Notification {
    pub task_id: u64,
    pub title: String,
    pub text: String,
    pub scheduled_at: u64,
    pub acknowledged: bool,
}

#[derive(Debug, Clone)]
pub struct Note {
    pub id: u64,
    pub title: String,
    pub body: String,
    pub x: i32,
    pub y: i32,
    pub width: i32,
    pub height: i32,
    pub visible: bool,
    pub topmost: bool,
}

#[derive(Debug, Clone)]
pub struct Settings {
    pub x: i32,
    pub y: i32,
    pub width: i32,
    pub height: i32,
    pub collapsed: bool,
    pub topmost: bool,
    pub opacity: u8,
    pub light: bool,
    pub draft: String,
    pub goal_node_shape: i8,
    pub collapsed_goal_ids: Vec<u64>,
}

/// One step of a goal. `shape` is -1 (inherit the platform default), or
/// 0/1/2 for rounded/rectangular/pill.
#[derive(Debug, Clone, PartialEq)]
pub struct GoalNode {
    pub id: u64,
    pub title: String,
    pub description: String,
    pub requires: Vec<u64>,
    pub shape: i8,
    pub created_at: u64,
    pub completed_at: Option<u64>,
}

#[derive(Debug, Clone, PartialEq)]
pub struct Goal {
    pub id: u64,
    pub title: String,
    pub description: String,
    pub created_at: u64,
    pub completed_at: Option<u64>,
    pub nodes: Vec<GoalNode>,
}

#[derive(Debug, Clone)]
pub struct Document {
    pub version: u32,
    pub next_id: u64,
    pub next_goal_id: u64,
    pub next_node_id: u64,
    pub tasks: Vec<Task>,
    pub settings: Settings,
    pub notes: Vec<Note>,
    pub goals: Vec<Goal>,
    pub notifications: Vec<Notification>,
}

/// The shape a goal node gets when the stored document names none.
pub fn inherited_shape() -> (r: i8)
    ensures
        r == -1,
{
    -1
}

/// The first free goal or node id of a document that names none.
pub fn one() -> (r: u64)
    ensures
        r == 1,
{
    1
}

impl Clone for Reminder {
    fn clone(&self) -> (r: Self)
        ensures
            r == *self,
    {
        Reminder {
            enabled: self.enabled,
            due_at: self.due_at,
            early_at: self.early_at,
            early_note: self.early_note.clone(),
            due_sent: self.due_sent,
            early_sent: self.early_sent,
        }
    }
}

impl Clone for Task {
    fn clone(&self) -> (r: Self)
        ensures
            r == *self,
    {
        let reminder = match &self.reminder {
            Some(rem) => Some(rem.clone()),
            None => None,
        };
        Task {
            id: self.id,
            text: self.text.clone(),
            created_at: self.created_at,
            completed_at: self.completed_at,
            deleted_at: self.deleted_at,
            reminder,
            reminder_configured: self.reminder_configured,
            schedule_checked: self.schedule_checked,
        }
    }
}


impl Default for Note {
    fn default() -> (r: Self)
        ensures
            r.id == 0,
            r.title@ == "桌面便签"@,
            r.body@ == Seq::<char>::empty(),
            r.x == 120 && r.y == 120,
            r.width == 360 && r.height == 360,
            r.visible,
            !r.topmost,
    {
        Note {
            id: 0,
            title: crate::text::lit("桌面便签"),
            body: String::new(),
            x: 120,
            y: 120,
            width: 360,
            height: 360,
            visible: true,
            topmost: false,
        }
    }
}

impl Default for Settings {
    fn default() -> (r: Self)
        ensures
            r.x == -32000 && r.y == -32000,
            r.width == 340 && r.height == 440,
            !r.collapsed,
            r.topmost,
            r.opacity == 220,
            !r.light,
            r.draft@ == Seq::<char>::empty(),
            r.goal_node_shape == 0,
            r.collapsed_goal_ids@ == Seq::<u64>::empty(),
    {
        Settings {
            x: -32000,
            y: -32000,
            width: 340,
            height: 440,
            collapsed: false,
            topmost: true,
            opacity: 220,
            light: false,
            draft: String::new(),
            goal_node_shape: 0,
            collapsed_goal_ids: Vec::new(),
        }
    }
}

impl Default for Document {
    fn default() -> (r: Self)
        ensures
            r.version == 2,
            r.next_id == 1 && r.next_goal_id == 1 && r.next_node_id == 1,
            r.tasks@.len() == 0 && r.notes@.len() == 0 && r.goals@.len() == 0 && r.notifications@.len() == 0,
            r.settings.width == 340 && r.settings.height == 440 && r.settings.opacity == 220,
            r.settings.x == -32000 && r.settings.y == -32000,
            !r.settings.collapsed && r.settings.topmost && !r.settings.light,
            r.settings.draft@ == Seq::<char>::empty(),
            r.settings.goal_node_shape == 0,
            r.settings.collapsed_goal_ids@ == Seq::<u64>::empty(),
    {
        Document {
            version: 2,
            next_id: 1,
            next_goal_id: 1,
            next_node_id: 1,
            tasks: Vec::new(),
            settings: Settings::default(),
            notes: Vec::new(),
            goals: Vec::new(),
            notifications: Vec::new(),
        }
    }
}

/// The task is neither deleted nor completed.
pub open spec fn is_pending(t: Task) -> bool {
    t.deleted_at is None && t.completed_at is None
}

/// The task shows in the list (`archive` false) or in the completed list (`archive` true).
pub open spec fn is_shown(t: Task, archive: bool) -> bool {
    t.deleted_at is None && (t.completed_at is Some) == archive
}

/// How many of `tasks` are pending.
pub open spec fn pending_count(tasks: Seq<Task>) -> nat
    decreases tasks.len(),
{
    if tasks.len() == 0 {
        0
    } else {
        pending_count(tasks.drop_last()) + if is_pending(tasks.last()) {
            1nat
        } else {
            0nat
        }
    }
}

impl Document {
    /// How many tasks are still to do.
    pub fn pending(&self) -> (n: usize)
        ensures
            n == pending_count(self.tasks@),
    {
        let mut n: usize = 0;
        for i in 0..self.tasks.len()
            invariant
                n == pending_count(self.tasks@.take(i as int)),
                n <= i,
        {
            assert(self.tasks@.take(i + 1).drop_last() == self.tasks@.take(i as int));
            if self.tasks[i].deleted_at.is_none() && self.tasks[i].completed_at.is_none() {
                n = n + 1;
            }
        }
        assert(self.tasks@.take(self.tasks@.len() as int) == self.tasks@);
        n
    }

    /// The tasks of the list (`archive` false) or of the completed list
    /// (`archive` true), in order; deleted tasks show in neither.
    pub fn visible(&self, archive: bool) -> (v: Vec<&Task>)
        ensures
            v@.map_values(|t: &Task| *t) == self.tasks@.filter(|t: Task| is_shown(t, archive)),
    {
        let mut v: Vec<&Task> = Vec::new();
        for i in 0..self.tasks.len()
            invariant
                v@.map_values(|t: &Task| *t) == self.tasks@.take(i as int).filter(|t: Task| is_shown(t, archive)),
        {
            proof {
                let t = self.tasks@.take(i + 1);
                assert(t.drop_last() == self.tasks@.take(i as int));
                assert(t.last() == self.tasks@[i as int]);
                reveal_with_fuel(Seq::filter, 1);
            }
            let t = &self.tasks[i];
            if t.deleted_at.is_none() && t.completed_at.is_some() == archive {
                let ghost before = v@;
                v.push(t);
                assert(v@.map_values(|t: &Task| *t) == before.map_values(|t: &Task| *t).push(*t));
            }
        }
        assert(self.tasks@.take(self.tasks@.len() as int) == self.tasks@);
        v
    }
}

/// The pending count is the length of the open list: a task is pending
/// exactly when it shows in the list and not in the completed list.
pub proof fn law_pending_is_open_list(tasks: Seq<Task>)
    ensures
        pending_count(tasks) == tasks.filter(|t: Task| is_shown(t, false)).len(),
    decreases tasks.len(),
{
    reveal_with_fuel(Seq::filter, 1);
    if tasks.len() > 0 {
        law_pending_is_open_list(tasks.drop_last());
        assert(is_pending(tasks.last()) == is_shown(tasks.last(), false));
    }
}

/// A new document has no goals, so it is sound, and no tasks, so every id
/// is free.
pub proof fn law_default_document_sound(d: Document)
    requires
        d.goals@.len() == 0,
        d.tasks@.len() == 0,
    ensures
        soundness::goals_sound(d),
        soundness::goals_consistent(d),
        tasks::ids_below(d.tasks@, d.next_id),
{
}

} // verus!
