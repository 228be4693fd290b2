//! The task list and its undo history.
use vstd::prelude::*;

use super::ids::{first_pos, has_id, lemma_first_pos, lemma_first_pos_at};
use super::{Document, Notification, Reminder, Task, MAX_JSON_ID};
use crate::text::{append, chars_of, decimal, decimal_string, lines_of, lit, prefix, remove_nul, string_of, strip_nul, take_chars, task_texts, trim, trimmed};

verus! {

/// Trusted: `SystemTime::now`, as milliseconds since the Unix epoch (0 when
/// the clock reads a time before the epoch). No contract: the value is the
/// machine's clock, and nothing is promised of it.
#[verifier::external_body]
pub fn now() -> u64 {
    std::time::SystemTime::now().duration_since(std::time::UNIX_EPOCH).unwrap_or_default().as_millis() as u64
}

/// The document together with up to 30 earlier task lists to undo to.
pub struct Model {
    pub doc: Document,
    history: Vec<Vec<Task>>,
}

/// The ids of `tasks`, in order.
pub open spec fn task_ids(tasks: Seq<Task>) -> Seq<u64> {
    tasks.map_values(|t: Task| t.id)
}

/// Position of the first task with this id.
pub open spec fn task_pos(tasks: Seq<Task>, id: u64) -> nat {
    first_pos(task_ids(tasks), id)
}

pub open spec fn has_task(tasks: Seq<Task>, id: u64) -> bool {
    has_id(task_ids(tasks), id)
}

/// A task as a model loaded from disk holds it: only reminders that the
/// user set explicitly survive.
pub open spec fn task_loaded(t: Task) -> Task {
    Task {
        reminder: if t.reminder_configured {
            t.reminder
        } else {
            None
        },
        schedule_checked: true,
        ..t
    }
}

/// The history after saving `tasks`: the oldest snapshot goes once 30 are kept.
pub open spec fn remembered(h: Seq<Seq<Task>>, tasks: Seq<Task>) -> Seq<Seq<Task>> {
    (if h.len() >= 30 {
        h.drop_first()
    } else {
        h
    }).push(tasks)
}

/// The text that `edit` stores, before it is cut to 10 000 characters.
pub open spec fn edited_text(s: Seq<char>) -> Seq<char> {
    remove_nul(trim(s))
}


/// The deleted task to restore first: the one deleted last, and of equal
/// times the one that comes last.
pub open spec fn latest_deleted(tasks: Seq<Task>) -> Option<int>
    decreases tasks.len(),
{
    if tasks.len() == 0 {
        None
    } else {
        let best = latest_deleted(tasks.drop_last());
        match tasks.last().deleted_at {
            Some(d) => match best {
                Some(b) => if d >= tasks[b].deleted_at->0 {
                    Some(tasks.len() - 1)
                } else {
                    best
                },
                None => Some(tasks.len() - 1),
            },
            None => best,
        }
    }
}

proof fn lemma_latest_deleted(tasks: Seq<Task>)
    ensures
        latest_deleted(tasks) matches Some(b) ==> 0 <= b < tasks.len() && tasks[b].deleted_at is Some,
        latest_deleted(tasks) is None ==> forall|i: int| 0 <= i < tasks.len() ==> tasks[i].deleted_at is None,
    decreases tasks.len(),
{
    if tasks.len() > 0 {
        lemma_latest_deleted(tasks.drop_last());
        assert forall|i: int| 0 <= i < tasks.len() - 1 implies tasks.drop_last()[i] == tasks[i] by {}
    }
}

/// The log holds a notification for task `id` at the reminder's due time.
pub open spec fn delivered_due(r: Reminder, id: u64, ns: Seq<Notification>) -> bool {
    exists|k: int| 0 <= k < ns.len() && (#[trigger] ns[k]).task_id == id && ns[k].scheduled_at == r.due_at
}

/// The log holds a notification for task `id` at the reminder's early time.
pub open spec fn delivered_early(r: Reminder, id: u64, ns: Seq<Notification>) -> bool {
    exists|k: int| 0 <= k < ns.len() && (#[trigger] ns[k]).task_id == id && r.early_at == Some(ns[k].scheduled_at)
}

/// A task brought back by `undo`: alerts that already went out stay sent.
pub open spec fn undo_marks(t: Task, ns: Seq<Notification>) -> Task {
    match t.reminder {
        Some(r) => Task {
            reminder: Some(
                Reminder {
                    due_sent: r.due_sent || delivered_due(r, t.id, ns),
                    early_sent: r.early_sent || delivered_early(r, t.id, ns),
                    ..r
                },
            ),
            ..t
        },
        None => t,
    }
}

/// The task is open and has an enabled reminder.
pub open spec fn watched(t: Task) -> bool {
    t.completed_at is None && t.deleted_at is None && (t.reminder matches Some(r) && r.enabled)
}

/// At `at` the task's due alert goes out.
pub open spec fn due_fires(t: Task, at: u64) -> bool {
    watched(t) && at >= t.reminder->0.due_at && !t.reminder->0.due_sent
}

/// At `at` the task's early alert goes out.
pub open spec fn early_fires(t: Task, at: u64) -> bool {
    let r = t.reminder->0;
    watched(t) && at < r.due_at && !r.early_sent && (r.early_at matches Some(e) && at >= e)
}

/// The task after the reminder check at `at`. A due alert also counts as
/// the early one, so a late check never sends both.
pub open spec fn after_alert(t: Task, at: u64) -> Task {
    let r = t.reminder->0;
    if due_fires(t, at) {
        Task { reminder: Some(Reminder { due_sent: true, early_sent: true, ..r }), ..t }
    } else if early_fires(t, at) {
        Task { reminder: Some(Reminder { early_sent: true, ..r }), ..t }
    } else {
        t
    }
}

/// What a notification says, as plain values.
pub struct NoticeView {
    pub task_id: u64,
    pub title: Seq<char>,
    pub text: Seq<char>,
    pub scheduled_at: u64,
    pub acknowledged: bool,
}

pub open spec fn notice_of(n: Notification) -> NoticeView {
    NoticeView {
        task_id: n.task_id,
        title: n.title@,
        text: n.text@,
        scheduled_at: n.scheduled_at,
        acknowledged: n.acknowledged,
    }
}

/// The notification that the reminder check at `at` sends for the task, if
/// any, with `shown` as the text of its due time.
pub open spec fn alert_shown(t: Task, at: u64, shown: Seq<char>) -> Option<NoticeView> {
    let r = t.reminder->0;
    if due_fires(t, at) {
        Some(NoticeView {
            task_id: t.id,
            title: "待办到点提醒"@,
            text: t.text@ + "\r\n时间："@ + shown,
            scheduled_at: r.due_at,
            acknowledged: false,
        })
    } else if early_fires(t, at) {
        Some(NoticeView {
            task_id: t.id,
            title: "待办提前提醒"@,
            text: t.text@ + "\r\n正式时间："@ + shown + "\r\n"@ + r.early_note@,
            scheduled_at: r.early_at->0,
            acknowledged: false,
        })
    } else {
        None
    }
}

/// The notification that the reminder check at `at` sends for the task, if
/// any, with its due time in decimal.
pub open spec fn alert_of(t: Task, at: u64) -> Option<NoticeView> {
    alert_shown(t, at, decimal(t.reminder->0.due_at as nat))
}

/// The notifications that the reminder check at `at` sends, in task order.
pub open spec fn alerts(tasks: Seq<Task>, at: u64) -> Seq<NoticeView>
    decreases tasks.len(),
{
    if tasks.len() == 0 {
        seq![]
    } else {
        let rest = alerts(tasks.drop_last(), at);
        match alert_of(tasks.last(), at) {
            Some(n) => rest.push(n),
            None => rest,
        }
    }
}

/// The due times of the tasks that the check at `at` sends an alert for, in
/// task order.
pub open spec fn fired_dues(tasks: Seq<Task>, at: u64) -> Seq<u64>
    decreases tasks.len(),
{
    if tasks.len() == 0 {
        seq![]
    } else {
        let rest = fired_dues(tasks.drop_last(), at);
        if alert_of(tasks.last(), at) is Some {
            rest.push(tasks.last().reminder->0.due_at)
        } else {
            rest
        }
    }
}

/// The notifications that the check at `at` sends, in task order, the
/// `k`-th showing its due time as `shown[k]`.
pub open spec fn alerts_shown(tasks: Seq<Task>, at: u64, shown: Seq<Seq<char>>) -> Seq<NoticeView>
    decreases tasks.len(),
{
    if tasks.len() == 0 {
        seq![]
    } else if alert_of(tasks.last(), at) is Some {
        alerts_shown(tasks.drop_last(), at, shown.drop_last()).push(
            alert_shown(tasks.last(), at, shown.last())->0,
        )
    } else {
        alerts_shown(tasks.drop_last(), at, shown)
    }
}

/// With every due time shown in decimal, the shown alerts are `alerts`.
proof fn lemma_alerts_decimal(tasks: Seq<Task>, at: u64, shown: Seq<Seq<char>>)
    requires
        shown.len() == fired_dues(tasks, at).len(),
        forall|k: int| 0 <= k < shown.len() ==> #[trigger] shown[k] == decimal(fired_dues(tasks, at)[k] as nat),
    ensures
        alerts_shown(tasks, at, shown) == alerts(tasks, at),
        fired_dues(tasks, at).len() == alerts(tasks, at).len(),
    decreases tasks.len(),
{
    if tasks.len() > 0 {
        let rest = tasks.drop_last();
        let d = fired_dues(rest, at);
        if alert_of(tasks.last(), at) is Some {
            assert forall|k: int| 0 <= k < shown.drop_last().len() implies #[trigger] shown.drop_last()[k] == decimal(d[k] as nat) by {
                assert(fired_dues(tasks, at)[k] == d[k]);
            }
            lemma_alerts_decimal(rest, at, shown.drop_last());
            assert(shown.last() == shown[shown.len() - 1]);
            assert(fired_dues(tasks, at)[shown.len() - 1] == tasks.last().reminder->0.due_at);
        } else {
            lemma_alerts_decimal(rest, at, shown);
        }
    }
}

/// `shown[k]` is a text that `show` gives for `dues[k]`, for every `k`.
pub open spec fn shows_all<F: Fn(u64) -> String>(show: F, dues: Seq<u64>, shown: Seq<String>) -> bool {
    &&& shown.len() == dues.len()
    &&& forall|k: int| 0 <= k < shown.len() ==> show.ensures((dues[k],), #[trigger] shown[k])
}

proof fn lemma_alerts_shown_len(tasks: Seq<Task>, at: u64, shown: Seq<Seq<char>>)
    ensures
        alerts_shown(tasks, at, shown).len() == fired_dues(tasks, at).len(),
    decreases tasks.len(),
{
    if tasks.len() > 0 {
        if alert_of(tasks.last(), at) is Some {
            lemma_alerts_shown_len(tasks.drop_last(), at, shown.drop_last());
        } else {
            lemma_alerts_shown_len(tasks.drop_last(), at, shown);
        }
    }
}

/// Every task of `tasks` has an id below `next`.
pub open spec fn ids_below(tasks: Seq<Task>, next: u64) -> bool {
    forall|i: int| 0 <= i < tasks.len() ==> (#[trigger] tasks[i]).id < next
}

proof fn lemma_ids_below_update(tasks: Seq<Task>, next: u64, p: int, t: Task)
    requires
        ids_below(tasks, next),
        0 <= p < tasks.len(),
        t.id == tasks[p].id,
    ensures
        ids_below(tasks.update(p, t), next),
{
    assert forall|i: int| 0 <= i < tasks.len() implies (#[trigger] tasks.update(p, t)[i]).id < next by {
        if i != p {
            assert(tasks.update(p, t)[i] == tasks[i]);
        }
    }
}

/// How a notification shows its time: the timestamp in decimal.
fn format_notification_time(timestamp: u64) -> (r: String)
    ensures
        r@ == decimal(timestamp as nat),
{
    decimal_string(timestamp)
}

/// Position of the task with this id, found by walking the tasks.
pub fn task_index(tasks: &Vec<Task>, id: u64) -> (p: usize)
    ensures
        p == task_pos(tasks@, id),
        p <= tasks@.len(),
{
    let mut i: usize = 0;
    while i < tasks.len()
        invariant
            i <= tasks@.len(),
            forall|j: int| 0 <= j < i ==> tasks@[j].id != id,
        decreases tasks.len() - i,
    {
        if tasks[i].id == id {
            proof {
                assert forall|j: int| 0 <= j < i implies task_ids(tasks@)[j] != id by {}
                lemma_first_pos_at(task_ids(tasks@), id, i as int);
            }
            return i;
        }
        i = i + 1;
    }
    proof {
        assert forall|j: int| 0 <= j < i implies task_ids(tasks@)[j] != id by {}
        lemma_first_pos_at(task_ids(tasks@), id, i as int);
    }
    i
}

/// A copy of the task list.
fn copy_tasks(v: &Vec<Task>) -> (r: Vec<Task>)
    ensures
        r@ == v@,
{
    let mut r: Vec<Task> = Vec::new();
    for i in 0..v.len()
        invariant
            r@ == v@.take(i as int),
    {
        r.push(v[i].clone());
        assert(v@.take(i + 1) == v@.take(i as int).push(v@[i as int]));
    }
    assert(v@.take(v.len() as int) == v@);
    r
}

impl Model {
    /// The saved task lists, oldest first.
    pub closed spec fn history(self) -> Seq<Seq<Task>> {
        self.history@.map_values(|v: Vec<Task>| v@)
    }

    /// The document that the model holds: its public field `doc`.
    pub closed spec fn document(self) -> Document {
        self.doc
    }

    /// No id at or above the next free task id occurs in the document or in
    /// any saved task list.
    pub closed spec fn ids_fresh(self) -> bool {
        &&& ids_below(self.doc.tasks@, self.doc.next_id)
        &&& forall|i: int| 0 <= i < self.history().len() ==> ids_below(#[trigger] self.history()[i], self.doc.next_id)
    }

    proof fn lemma_fresh_after_save(m0: Model, m1: Model)
        requires
            m0.ids_fresh(),
            m0.doc.next_id <= m1.doc.next_id,
            m1.history() == remembered(m0.history(), m0.doc.tasks@),
            ids_below(m1.doc.tasks@, m1.doc.next_id),
        ensures
            m1.ids_fresh(),
    {
        let h0 = m0.history();
        let h = if h0.len() >= 30 { h0.drop_first() } else { h0 };
        assert forall|i: int| 0 <= i < m1.history().len() implies ids_below(#[trigger] m1.history()[i], m1.doc.next_id) by {
            if i < h.len() {
                let j = if h0.len() >= 30 { i + 1 } else { i };
                assert(m1.history()[i] == h0[j]);
                assert(ids_below(h0[j], m0.doc.next_id));
            } else {
                assert(m1.history()[i] == m0.doc.tasks@);
            }
            let s = m1.history()[i];
            assert forall|k: int| 0 <= k < s.len() implies (#[trigger] s[k]).id < m1.doc.next_id by {
                if i < h.len() {
                    let j = if h0.len() >= 30 { i + 1 } else { i };
                    assert(ids_below(h0[j], m0.doc.next_id));
                } else {
                    assert(ids_below(m0.doc.tasks@, m0.doc.next_id));
                }
            }
        }
    }

    /// A model for a loaded document, with an empty history.
    pub fn new(doc: Document) -> (m: Self)
        ensures
            m.document() == (Document { tasks: m.document().tasks, ..doc }),
            m.document().tasks@ == doc.tasks@.map_values(|t: Task| task_loaded(t)),
            m.history() == Seq::<Seq<Task>>::empty(),
            ids_below(doc.tasks@, doc.next_id) ==> m.ids_fresh(),
    {
        let ghost d0 = doc;
        let mut doc = doc;
        let ghost start = doc.tasks@;
        let n = doc.tasks.len();
        for i in 0..n
            invariant
                n == doc.tasks@.len(),
                start.len() == n,
                start == d0.tasks@,
                doc == (Document { tasks: doc.tasks, ..d0 }),
                forall|j: int| 0 <= j < i ==> doc.tasks@[j] == task_loaded(start[j]),
                forall|j: int| i <= j < n ==> doc.tasks@[j] == start[j],
        {
            if !doc.tasks[i].reminder_configured {
                doc.tasks[i].reminder = None;
            }
            doc.tasks[i].schedule_checked = true;
        }
        assert(doc.tasks@ == start.map_values(|t: Task| task_loaded(t)));
        let m = Model { doc, history: Vec::new() };
        assert(m.history() == Seq::<Seq<Task>>::empty());
        proof {
            if ids_below(d0.tasks@, d0.next_id) {
                assert forall|i: int| 0 <= i < m.doc.tasks@.len() implies (#[trigger] m.doc.tasks@[i]).id < m.doc.next_id by {
                    assert(m.doc.tasks@[i] == task_loaded(start[i]));
                }
            }
        }
        m
    }

    /// Replaces the model by one for an imported document, keeping the
    /// current window and display settings; the history starts empty.
    pub fn import(&mut self, doc: Document)
        ensures
            final(self).document() == (Document {
                settings: old(self).document().settings,
                tasks: final(self).document().tasks,
                ..doc
            }),
            final(self).document().tasks@ == doc.tasks@.map_values(|t: Task| task_loaded(t)),
            final(self).history() == Seq::<Seq<Task>>::empty(),
            ids_below(doc.tasks@, doc.next_id) ==> final(self).ids_fresh(),
    {
        let mut doc = doc;
        std::mem::swap(&mut doc.settings, &mut self.doc.settings);
        *self = Model::new(doc);
    }

    /// Saves the current task list for `undo`.
    fn remember(&mut self)
        ensures
            final(self).document() == old(self).document(),
            final(self).history() == remembered(old(self).history(), old(self).document().tasks@),
    {
        let ghost h0 = self.history();
        if self.history.len() >= 30 {
            self.history.remove(0);
            assert(self.history() == h0.drop_first());
        }
        let copy = copy_tasks(&self.doc.tasks);
        let ghost h1 = self.history();
        self.history.push(copy);
        assert(self.history() == h1.push(old(self).document().tasks@));
    }

    /// Adds one task per non-blank line of `text` and returns how many. Adds
    /// nothing when the next id is 0 or no longer JSON-safe.
    pub fn add(&mut self, text: &str) -> (k: usize)
        requires
            text@.len() < 0x8000_0000_0000_0000,
        ensures
            ({
                let lines = lines_of(text@);
                let start = old(self).document().next_id;
                if start == 0 || start >= MAX_JSON_ID || lines.len() == 0 {
                    &&& k == 0
                    &&& *final(self) == *old(self)
                } else {
                    &&& k == lines.len()
                    &&& final(self).document() == (Document {
                        next_id: (start + k) as u64,
                        tasks: final(self).document().tasks,
                        ..old(self).document()
                    })
                    &&& final(self).history() == remembered(old(self).history(), old(self).document().tasks@)
                    &&& final(self).document().tasks@.len() == old(self).document().tasks@.len() + k
                    &&& final(self).document().tasks@.take(old(self).document().tasks@.len() as int) == old(self).document().tasks@
                    &&& forall|j: int|
                        0 <= j < k ==> {
                            let t = #[trigger] final(self).document().tasks@[old(self).document().tasks@.len() + j];
                            &&& t.id == start + j
                            &&& t.text@ == lines[j]
                            &&& t.completed_at is None
                            &&& t.deleted_at is None
                            &&& t.reminder is None
                            &&& !t.reminder_configured
                            &&& t.schedule_checked
                        }
                }
            }),
            old(self).ids_fresh() ==> final(self).ids_fresh(),
    {
        if self.doc.next_id == 0 || self.doc.next_id >= MAX_JSON_ID {
            return 0;
        }
        let lines = task_texts(text);
        let ghost views = lines@.map_values(|t: String| t@);
        assert(views.len() == lines@.len());
        if lines.len() == 0 {
            return 0;
        }
        self.remember();
        let ghost mid = *self;
        let old_len = self.doc.tasks.len();
        let start = self.doc.next_id;
        for i in 0..lines.len()
            invariant
                views == lines@.map_values(|t: String| t@),
                views.len() == lines@.len(),
                lines@.len() <= text@.len() + 1,
                text@.len() < 0x8000_0000_0000_0000,
                start < MAX_JSON_ID,
                old_len == mid.doc.tasks@.len(),
                self.history() == mid.history(),
                self.doc == (Document { next_id: (start + i) as u64, tasks: self.doc.tasks, ..mid.doc }),
                self.doc.tasks@.len() == old_len + i,
                self.doc.tasks@.take(old_len as int) == mid.doc.tasks@,
                forall|j: int|
                    0 <= j < i ==> {
                        let t = #[trigger] self.doc.tasks@[old_len + j];
                        &&& t.id == start + j
                        &&& t.text@ == views[j]
                        &&& t.completed_at is None
                        &&& t.deleted_at is None
                        &&& t.reminder is None
                        &&& !t.reminder_configured
                        &&& t.schedule_checked
                    },
        {
            let id = self.doc.next_id;
            self.doc.next_id = id + 1;
            let task = Task {
                id,
                text: lines[i].clone(),
                created_at: now(),
                completed_at: None,
                deleted_at: None,
                reminder: None,
                reminder_configured: false,
                schedule_checked: true,
            };
            let ghost before = self.doc.tasks@;
            self.doc.tasks.push(task);
            assert(self.doc.tasks@.take(old_len as int) == before.take(old_len as int));
            assert(self.doc.tasks@[old_len + i as int].text@ == views[i as int]);
        }
        proof {
            if old(self).ids_fresh() {
                let k = lines@.len();
                assert forall|i: int| 0 <= i < self.doc.tasks@.len() implies (#[trigger] self.doc.tasks@[i]).id < self.doc.next_id by {
                    if i < old_len {
                        assert(self.doc.tasks@[i] == self.doc.tasks@.take(old_len as int)[i]);
                        assert(self.doc.tasks@[i] == old(self).doc.tasks@[i]);
                    } else {
                        let j = i - old_len;
                        assert(self.doc.tasks@[old_len + j].id == start + j);
                    }
                }
                Model::lemma_fresh_after_save(*old(self), *self);
            }
        }
        lines.len()
    }

    /// Replaces the text of the task with this id, unless the new text is
    /// blank or no task has the id.
    pub fn edit(&mut self, id: u64, text: &str)
        ensures
            edited_text(text@).len() == 0 || !has_task(old(self).document().tasks@, id) ==> *final(self) == *old(self),
            edited_text(text@).len() > 0 && has_task(old(self).document().tasks@, id) ==> {
                let p = task_pos(old(self).document().tasks@, id) as int;
                let t = final(self).document().tasks@[p];
                &&& final(self).document() == (Document { tasks: final(self).document().tasks, ..old(self).document() })
                &&& final(self).history() == remembered(old(self).history(), old(self).document().tasks@)
                &&& final(self).document().tasks@ == old(self).document().tasks@.update(p, t)
                &&& t == (Task { text: t.text, ..old(self).document().tasks@[p] })
                &&& t.text@ == prefix(edited_text(text@), 10_000)
            },
            old(self).ids_fresh() ==> final(self).ids_fresh(),
    {
        let v = chars_of(text);
        let v = trimmed(&v);
        let v = strip_nul(&v);
        if v.len() == 0 {
            return;
        }
        let p = task_index(&self.doc.tasks, id);
        if p >= self.doc.tasks.len() {
            return;
        }
        self.remember();
        let v = take_chars(&v, 10_000);
        self.doc.tasks[p].text = string_of(&v);
        proof {
            if old(self).ids_fresh() {
                lemma_ids_below_update(old(self).doc.tasks@, self.doc.next_id, p as int, self.doc.tasks@[p as int]);
                assert(self.doc.tasks@ == old(self).doc.tasks@.update(p as int, self.doc.tasks@[p as int]));
                Model::lemma_fresh_after_save(*old(self), *self);
            }
        }
    }

    /// Completes the task with this id, or reopens it when it is completed.
    pub fn toggle(&mut self, id: u64)
        ensures
            !has_task(old(self).document().tasks@, id) ==> *final(self) == *old(self),
            has_task(old(self).document().tasks@, id) ==> {
                let p = task_pos(old(self).document().tasks@, id) as int;
                let o = old(self).document().tasks@[p];
                let t = final(self).document().tasks@[p];
                &&& final(self).document() == (Document { tasks: final(self).document().tasks, ..old(self).document() })
                &&& final(self).history() == remembered(old(self).history(), old(self).document().tasks@)
                &&& final(self).document().tasks@ == old(self).document().tasks@.update(p, t)
                &&& t == (Task { completed_at: t.completed_at, ..o })
                &&& (o.completed_at is Some <==> t.completed_at is None)
            },
            old(self).ids_fresh() ==> final(self).ids_fresh(),
    {
        let p = task_index(&self.doc.tasks, id);
        if p >= self.doc.tasks.len() {
            return;
        }
        self.remember();
        let c = if self.doc.tasks[p].completed_at.is_some() {
            None
        } else {
            Some(now())
        };
        self.doc.tasks[p].completed_at = c;
        proof {
            if old(self).ids_fresh() {
                lemma_ids_below_update(old(self).doc.tasks@, self.doc.next_id, p as int, self.doc.tasks@[p as int]);
                assert(self.doc.tasks@ == old(self).doc.tasks@.update(p as int, self.doc.tasks@[p as int]));
                Model::lemma_fresh_after_save(*old(self), *self);
            }
        }
    }

    /// Moves the task with this id to the recently deleted list; it stays in
    /// the document and can be restored.
    pub fn delete(&mut self, id: u64)
        ensures
            !has_task(old(self).document().tasks@, id) ==> *final(self) == *old(self),
            has_task(old(self).document().tasks@, id) ==> {
                let p = task_pos(old(self).document().tasks@, id) as int;
                let t = final(self).document().tasks@[p];
                &&& final(self).document() == (Document { tasks: final(self).document().tasks, ..old(self).document() })
                &&& final(self).history() == remembered(old(self).history(), old(self).document().tasks@)
                &&& final(self).document().tasks@ == old(self).document().tasks@.update(p, t)
                &&& t == (Task { deleted_at: t.deleted_at, ..old(self).document().tasks@[p] })
                &&& t.deleted_at is Some
            },
            old(self).ids_fresh() ==> final(self).ids_fresh(),
    {
        let p = task_index(&self.doc.tasks, id);
        if p >= self.doc.tasks.len() {
            return;
        }
        self.remember();
        let at = now();
        self.doc.tasks[p].deleted_at = Some(at);
        proof {
            if old(self).ids_fresh() {
                lemma_ids_below_update(old(self).doc.tasks@, self.doc.next_id, p as int, self.doc.tasks@[p as int]);
                assert(self.doc.tasks@ == old(self).doc.tasks@.update(p as int, self.doc.tasks@[p as int]));
                Model::lemma_fresh_after_save(*old(self), *self);
            }
        }
    }

    /// Takes the most recently deleted task out of the deleted list.
    /// Returns whether there was one.
    pub fn restore_deleted(&mut self) -> (r: bool)
        ensures
            match latest_deleted(old(self).document().tasks@) {
                None => !r && *final(self) == *old(self),
                Some(b) => {
                    let tasks = old(self).document().tasks@;
                    let p = task_pos(tasks, tasks[b].id) as int;
                    &&& r
                    &&& final(self).document() == (Document { tasks: final(self).document().tasks, ..old(self).document() })
                    &&& final(self).history() == remembered(old(self).history(), tasks)
                    &&& final(self).document().tasks@ == tasks.update(p, Task { deleted_at: None, ..tasks[p] })
                },
            },
            old(self).ids_fresh() ==> final(self).ids_fresh(),
    {
        let n = self.doc.tasks.len();
        let mut best: Option<usize> = None;
        for i in 0..n
            invariant
                n == self.doc.tasks@.len(),
                best == match latest_deleted(self.doc.tasks@.take(i as int)) {
                    Some(b) => Some(b as usize),
                    None => None::<usize>,
                },
                best matches Some(b) ==> b < i && self.doc.tasks@[b as int].deleted_at is Some,
        {
            proof {
                assert(self.doc.tasks@.take(i + 1).drop_last() == self.doc.tasks@.take(i as int));
                lemma_latest_deleted(self.doc.tasks@.take(i as int));
            }
            match self.doc.tasks[i].deleted_at {
                Some(d) => {
                    match best {
                        Some(b) => {
                            let bd = match self.doc.tasks[b].deleted_at {
                                Some(x) => x,
                                None => 0,
                            };
                            assert(self.doc.tasks@.take(i as int)[b as int] == self.doc.tasks@[b as int]);
                            if d >= bd {
                                best = Some(i);
                            }
                        },
                        None => {
                            best = Some(i);
                        },
                    }
                },
                None => {},
            }
        }
        assert(self.doc.tasks@.take(n as int) == self.doc.tasks@);
        proof {
            lemma_latest_deleted(self.doc.tasks@);
        }
        match best {
            None => false,
            Some(b) => {
                let id = self.doc.tasks[b].id;
                let p = task_index(&self.doc.tasks, id);
                proof {
                    lemma_first_pos(task_ids(self.doc.tasks@), id);
                    assert(task_ids(self.doc.tasks@)[b as int] == id);
                }
                self.remember();
                self.doc.tasks[p].deleted_at = None;
                proof {
                    if old(self).ids_fresh() {
                        lemma_ids_below_update(old(self).doc.tasks@, self.doc.next_id, p as int, self.doc.tasks@[p as int]);
                        assert(self.doc.tasks@ == old(self).doc.tasks@.update(p as int, self.doc.tasks@[p as int]));
                        Model::lemma_fresh_after_save(*old(self), *self);
                    }
                }
                true
            },
        }
    }

    /// Goes back to the task list before the last change. Alerts that went
    /// out meanwhile stay marked as sent. Returns whether there was a change
    /// to undo.
    pub fn undo(&mut self) -> (r: bool)
        ensures
            old(self).history().len() == 0 ==> !r && *final(self) == *old(self),
            old(self).history().len() > 0 ==> {
                &&& r
                &&& final(self).document() == (Document { tasks: final(self).document().tasks, ..old(self).document() })
                &&& final(self).history() == old(self).history().drop_last()
                &&& final(self).document().tasks@ == old(self).history().last().map_values(
                    |t: Task| undo_marks(t, old(self).document().notifications@),
                )
            },
            old(self).ids_fresh() ==> final(self).ids_fresh(),
    {
        if self.history.len() == 0 {
            return false;
        }
        let ghost h0 = self.history();
        let popped = self.history.pop();
        let mut tasks = match popped {
            None => return false,
            Some(v) => v,
        };
        assert(self.history() == h0.drop_last());
        let ghost start = tasks@;
        let n = tasks.len();
        for i in 0..n
            invariant
                n == tasks@.len(),
                start.len() == n,
                forall|j: int| 0 <= j < i ==> tasks@[j] == undo_marks(start[j], self.doc.notifications@),
                forall|j: int| i <= j < n ==> tasks@[j] == start[j],
        {
            let tid = tasks[i].id;
            let marked = match &tasks[i].reminder {
                None => None,
                Some(r) => {
                    let mut due_hit = false;
                    let mut early_hit = false;
                    let ns = &self.doc.notifications;
                    for k in 0..ns.len()
                        invariant
                            *r == start[i as int].reminder->0,
                            tid == start[i as int].id,
                            due_hit <==> exists|m: int| 0 <= m < k && (#[trigger] ns@[m]).task_id == tid && ns@[m].scheduled_at == r.due_at,
                            early_hit <==> exists|m: int| 0 <= m < k && (#[trigger] ns@[m]).task_id == tid && r.early_at == Some(ns@[m].scheduled_at),
                    {
                        if ns[k].task_id == tid && ns[k].scheduled_at == r.due_at {
                            due_hit = true;
                        }
                        let same_early = match r.early_at {
                            Some(e) => e == ns[k].scheduled_at,
                            None => false,
                        };
                        if ns[k].task_id == tid && same_early {
                            early_hit = true;
                        }
                    }
                    let mut nr = r.clone();
                    nr.due_sent = r.due_sent || due_hit;
                    nr.early_sent = r.early_sent || early_hit;
                    Some(nr)
                },
            };
            if marked.is_some() {
                tasks[i].reminder = marked;
            }
        }
        assert(tasks@ == start.map_values(|t: Task| undo_marks(t, self.doc.notifications@)));
        self.doc.tasks = tasks;
        proof {
            if old(self).ids_fresh() {
                let last = h0.len() - 1;
                assert(ids_below(h0[last], self.doc.next_id));
                assert(start == h0[last]);
                assert forall|i: int| 0 <= i < self.doc.tasks@.len() implies (#[trigger] self.doc.tasks@[i]).id < self.doc.next_id by {
                    assert(self.doc.tasks@[i] == undo_marks(start[i], self.doc.notifications@));
                }
                assert forall|i: int| 0 <= i < self.history().len() implies ids_below(#[trigger] self.history()[i], self.doc.next_id) by {
                    assert(self.history()[i] == h0[i]);
                }
            }
        }
        true
    }

    /// Moves the task with id `from` to the place of the task with id `to`.
    /// Nothing happens when either is missing or they are the same id.
    pub fn reorder(&mut self, from: u64, to: u64)
        ensures
            from == to || !has_task(old(self).document().tasks@, from) || !has_task(old(self).document().tasks@, to)
                ==> *final(self) == *old(self),
            from != to && has_task(old(self).document().tasks@, from) && has_task(old(self).document().tasks@, to) ==> {
                let tasks = old(self).document().tasks@;
                let a = task_pos(tasks, from) as int;
                let b = task_pos(tasks, to) as int;
                &&& final(self).document() == (Document { tasks: final(self).document().tasks, ..old(self).document() })
                &&& final(self).history() == remembered(old(self).history(), tasks)
                &&& final(self).document().tasks@ == tasks.remove(a).insert(b, tasks[a])
            },
            old(self).ids_fresh() ==> final(self).ids_fresh(),
    {
        if from == to {
            return;
        }
        let a = task_index(&self.doc.tasks, from);
        let b = task_index(&self.doc.tasks, to);
        if a >= self.doc.tasks.len() || b >= self.doc.tasks.len() {
            return;
        }
        self.remember();
        let t = self.doc.tasks.remove(a);
        self.doc.tasks.insert(b, t);
        proof {
            if old(self).ids_fresh() {
                let o = old(self).doc.tasks@;
                let r = o.remove(a as int);
                assert forall|i: int| 0 <= i < r.len() implies (#[trigger] r[i]).id < self.doc.next_id by {
                    if i < a {
                        assert(r[i] == o[i]);
                    } else {
                        assert(r[i] == o[i + 1]);
                    }
                }
                let f = r.insert(b as int, o[a as int]);
                assert forall|i: int| 0 <= i < f.len() implies (#[trigger] f[i]).id < self.doc.next_id by {
                    if i < b {
                        assert(f[i] == r[i]);
                    } else if i > b {
                        assert(f[i] == r[i - 1]);
                    }
                }
                Model::lemma_fresh_after_save(*old(self), *self);
            }
        }
    }

    /// Sends the alerts that are due at `at`: a due alert for each open task
    /// whose enabled reminder is due and not yet sent, else an early alert
    /// when its early time has come and the due time has not. `show` gives
    /// the text of a due time (the local time of day where a time zone is at
    /// hand). Returns whether any alert went out.
    pub fn collect_reminders_shown<F: Fn(u64) -> String>(&mut self, at: u64, show: F) -> (changed: bool)
        requires
            forall|x: u64| show.requires((x,)),
        ensures
            ({
                let o = old(self).document();
                let f = final(self).document();
                let dues = fired_dues(o.tasks@, at);
                &&& f == (Document { tasks: f.tasks, notifications: f.notifications, ..o })
                &&& final(self).history() == old(self).history()
                &&& f.tasks@ == o.tasks@.map_values(|t: Task| after_alert(t, at))
                &&& f.notifications@.len() == o.notifications@.len() + dues.len()
                &&& f.notifications@.take(o.notifications@.len() as int) == o.notifications@
                &&& exists|shown: Seq<String>|
                    #[trigger] shows_all(show, dues, shown) && f.notifications@.skip(o.notifications@.len() as int).map_values(
                        |n: Notification| notice_of(n),
                    ) == alerts_shown(o.tasks@, at, shown.map_values(|s: String| s@))
                &&& changed == (dues.len() > 0)
            }),
            old(self).ids_fresh() ==> final(self).ids_fresh(),
    {
        let ghost start = self.doc.tasks@;
        let ghost ns0 = self.doc.notifications@;
        let ghost h0 = self.history();
        let ghost d0 = self.doc;
        let ghost mut shown: Seq<String> = seq![];
        let n = self.doc.tasks.len();
        let mut fresh: Vec<Notification> = Vec::new();
        for i in 0..n
            invariant
                n == self.doc.tasks@.len(),
                start.len() == n,
                self.doc == (Document { tasks: self.doc.tasks, ..d0 }),
                self.history() == h0,
                forall|x: u64| show.requires((x,)),
                forall|j: int| 0 <= j < i ==> self.doc.tasks@[j] == after_alert(start[j], at),
                forall|j: int| i <= j < n ==> self.doc.tasks@[j] == start[j],
                shows_all(show, fired_dues(start.take(i as int), at), shown),
                fresh@.map_values(|m: Notification| notice_of(m)) == alerts_shown(
                    start.take(i as int),
                    at,
                    shown.map_values(|s: String| s@),
                ),
        {
            let ghost pre = start.take(i as int);
            let ghost post = start.take(i + 1);
            proof {
                assert(post.drop_last() == pre);
                assert(post.last() == start[i as int]);
            }
            let t = &self.doc.tasks[i];
            if t.completed_at.is_none() && t.deleted_at.is_none() {
                match &t.reminder {
                    Some(r) => {
                        if r.enabled {
                            if at >= r.due_at && !r.due_sent {
                                let when = show(r.due_at);
                                let mut text = t.text.clone();
                                append(&mut text, "\r\n时间：");
                                append(&mut text, when.as_str());
                                let note = Notification {
                                    task_id: t.id,
                                    title: lit("待办到点提醒"),
                                    text,
                                    scheduled_at: r.due_at,
                                    acknowledged: false,
                                };
                                let mut nr = r.clone();
                                nr.due_sent = true;
                                nr.early_sent = true;
                                let ghost f0 = fresh@;
                                let ghost s0 = shown;
                                fresh.push(note);
                                proof {
                                    shown = shown.push(when);
                                    assert(fired_dues(post, at) == fired_dues(pre, at).push(r.due_at));
                                    assert(shown.map_values(|s: String| s@).drop_last() == s0.map_values(|s: String| s@));
                                    assert(fresh@.map_values(|m: Notification| notice_of(m)) == f0.map_values(|m: Notification| notice_of(m)).push(notice_of(note)));
                                }
                                self.doc.tasks[i].reminder = Some(nr);
                            } else {
                                let early_due = match r.early_at {
                                    Some(e) => at >= e,
                                    None => false,
                                };
                                if at < r.due_at && !r.early_sent && early_due {
                                    let when = show(r.due_at);
                                    let mut text = t.text.clone();
                                    append(&mut text, "\r\n正式时间：");
                                    append(&mut text, when.as_str());
                                    append(&mut text, "\r\n");
                                    append(&mut text, r.early_note.as_str());
                                    let e = match r.early_at {
                                        Some(e) => e,
                                        None => 0,
                                    };
                                    let note = Notification {
                                        task_id: t.id,
                                        title: lit("待办提前提醒"),
                                        text,
                                        scheduled_at: e,
                                        acknowledged: false,
                                    };
                                    let mut nr = r.clone();
                                    nr.early_sent = true;
                                    let ghost f0 = fresh@;
                                    let ghost s0 = shown;
                                    fresh.push(note);
                                    proof {
                                        shown = shown.push(when);
                                        assert(fired_dues(post, at) == fired_dues(pre, at).push(r.due_at));
                                        assert(shown.map_values(|s: String| s@).drop_last() == s0.map_values(|s: String| s@));
                                        assert(fresh@.map_values(|m: Notification| notice_of(m)) == f0.map_values(|m: Notification| notice_of(m)).push(notice_of(note)));
                                    }
                                    self.doc.tasks[i].reminder = Some(nr);
                                }
                            }
                        }
                    },
                    None => {},
                }
            }
        }
        assert(start.take(n as int) == start);
        assert(self.doc.tasks@ == start.map_values(|t: Task| after_alert(t, at)));
        let changed = fresh.len() > 0;
        let ghost fv = fresh@;
        let mut fresh = fresh;
        self.doc.notifications.append(&mut fresh);
        proof {
            assert(self.doc.notifications@ == ns0 + fv);
            assert(self.doc.notifications@.take(ns0.len() as int) == ns0);
            assert(self.doc.notifications@.skip(ns0.len() as int) == fv);
            lemma_alerts_shown_len(start, at, shown.map_values(|s: String| s@));
            assert(shows_all(show, fired_dues(start, at), shown));
            if old(self).ids_fresh() {
                assert forall|i: int| 0 <= i < self.doc.tasks@.len() implies (#[trigger] self.doc.tasks@[i]).id < self.doc.next_id by {
                    assert(self.doc.tasks@[i] == after_alert(start[i], at));
                }
            }
        }
        changed
    }

    /// `collect_reminders_shown` with each due time shown in decimal.
    pub fn collect_reminders(&mut self, at: u64) -> (changed: bool)
        ensures
            ({
                let o = old(self).document();
                let f = final(self).document();
                &&& f == (Document { tasks: f.tasks, notifications: f.notifications, ..o })
                &&& final(self).history() == old(self).history()
                &&& f.tasks@ == o.tasks@.map_values(|t: Task| after_alert(t, at))
                &&& f.notifications@.len() == o.notifications@.len() + alerts(o.tasks@, at).len()
                &&& f.notifications@.take(o.notifications@.len() as int) == o.notifications@
                &&& f.notifications@.skip(o.notifications@.len() as int).map_values(|n: Notification| notice_of(n))
                    == alerts(o.tasks@, at)
                &&& changed == (alerts(o.tasks@, at).len() > 0)
            }),
            old(self).ids_fresh() ==> final(self).ids_fresh(),
    {
        let ghost o = self.doc;
        let show = |x: u64| -> (s: String)
            ensures
                s@ == decimal(x as nat),
            { format_notification_time(x) };
        let changed = self.collect_reminders_shown(at, show);
        proof {
            let dues = fired_dues(o.tasks@, at);
            let shown = choose|shown: Seq<String>|
                #[trigger] shows_all(show, dues, shown) && self.doc.notifications@.skip(o.notifications@.len() as int).map_values(
                    |n: Notification| notice_of(n),
                ) == alerts_shown(o.tasks@, at, shown.map_values(|s: String| s@));
            let texts = shown.map_values(|s: String| s@);
            assert forall|k: int| 0 <= k < texts.len() implies #[trigger] texts[k] == decimal(dues[k] as nat) by {
                assert(show.ensures((dues[k],), shown[k]));
            }
            lemma_alerts_decimal(o.tasks@, at, texts);
        }
        changed
    }
}

/// `b` is `a` with, at most, more of its reminder's alerts marked as sent.
pub open spec fn same_but_sent(a: Task, b: Task) -> bool {
    &&& b == (Task { reminder: b.reminder, ..a })
    &&& match a.reminder {
        None => b.reminder is None,
        Some(r) => b.reminder matches Some(q) && q == (Reminder { due_sent: q.due_sent, early_sent: q.early_sent, ..r })
            && (r.due_sent ==> q.due_sent) && (r.early_sent ==> q.early_sent),
    }
}

/// Undo gives back the list from before the last change: the list that a
/// change saves is the one that `undo` takes back, and the history returns
/// to what it was (less its oldest list once 30 were kept).
pub proof fn law_undo_restores(h: Seq<Seq<Task>>, tasks: Seq<Task>, ns: Seq<Notification>)
    ensures
        remembered(h, tasks).last().map_values(|t: Task| undo_marks(t, ns)) == tasks.map_values(
            |t: Task| undo_marks(t, ns),
        ),
        remembered(h, tasks).drop_last() == (if h.len() >= 30 {
            h.drop_first()
        } else {
            h
        }),
{
    let h1 = if h.len() >= 30 { h.drop_first() } else { h };
    assert(remembered(h, tasks).drop_last() == h1);
}

/// What undo brings back differs from the saved task only in the sent marks
/// of its reminder, which it sets for alerts already in the log; with no
/// alert for the task in the log it is the saved task itself.
pub proof fn law_undo_keeps_all_but_sent(t: Task, ns: Seq<Notification>)
    ensures
        same_but_sent(t, undo_marks(t, ns)),
        (forall|k: int| 0 <= k < ns.len() ==> (#[trigger] ns[k]).task_id != t.id) ==> undo_marks(t, ns) == t,
{
    if forall|k: int| 0 <= k < ns.len() ==> (#[trigger] ns[k]).task_id != t.id {
        if let Some(r) = t.reminder {
            assert(!delivered_due(r, t.id, ns));
            assert(!delivered_early(r, t.id, ns));
            assert(Reminder { due_sent: r.due_sent, early_sent: r.early_sent, ..r } == r);
        }
    }
}

/// Saving a list never takes a history of at most 30 lists past 30; since
/// undo only shortens it, the history never holds more than 30 lists.
pub proof fn law_history_bounded(h: Seq<Seq<Task>>, tasks: Seq<Task>)
    requires
        h.len() <= 30,
    ensures
        remembered(h, tasks).len() <= 30,
{
}

/// Ids are never reused: an id at or above the next free id is in neither
/// the task list nor any list that undo could bring back. `add` takes its
/// ids from there, so undoing an add and adding again gives new ids.
pub proof fn law_fresh_ids_unused(m: Model, id: u64)
    requires
        m.ids_fresh(),
        id >= m.document().next_id,
    ensures
        !has_task(m.document().tasks@, id),
        forall|i: int| 0 <= i < m.history().len() ==> !has_task(#[trigger] m.history()[i], id),
{
    if has_task(m.document().tasks@, id) {
        lemma_first_pos(task_ids(m.document().tasks@), id);
        let p = task_pos(m.document().tasks@, id) as int;
        assert(task_ids(m.document().tasks@)[p] == m.document().tasks@[p].id);
    }
    assert forall|i: int| 0 <= i < m.history().len() implies !has_task(#[trigger] m.history()[i], id) by {
        let s = m.history()[i];
        if has_task(s, id) {
            lemma_first_pos(task_ids(s), id);
            let p = task_pos(s, id) as int;
            assert(task_ids(s)[p] == s[p].id);
            assert(ids_below(s, m.document().next_id));
        }
    }
}

/// Moving a task keeps every task, archived ones included: the list after
/// `reorder` holds the same tasks as before.
pub proof fn law_reorder_keeps_tasks(tasks: Seq<Task>, a: int, b: int)
    requires
        0 <= a < tasks.len(),
        0 <= b < tasks.len(),
    ensures
        tasks.remove(a).insert(b, tasks[a]).to_multiset() == tasks.to_multiset(),
        tasks.remove(a).insert(b, tasks[a]).len() == tasks.len(),
{
    broadcast use vstd::seq_lib::group_to_multiset_ensures;
    let r = tasks.remove(a);
    let f = r.insert(b, tasks[a]);
    assert(f.remove(b) == r);
    assert(f[b] == tasks[a]);
    assert(f.to_multiset().remove(tasks[a]) == r.to_multiset());
    assert(r.to_multiset() == tasks.to_multiset().remove(tasks[a]));
    assert(f.contains(tasks[a]));
    assert(tasks.contains(tasks[a]));
    assert(f.to_multiset() =~= tasks.to_multiset()) by {
        assert forall|x: Task| #[trigger] f.to_multiset().count(x) == tasks.to_multiset().count(x) by {
            if x == tasks[a] {
                assert(f.to_multiset().count(x) > 0);
                assert(tasks.to_multiset().count(x) > 0);
            }
        }
    }
}

/// A second reminder check at the same moment sends nothing.
pub proof fn law_check_twice_silent(tasks: Seq<Task>, at: u64)
    ensures
        alerts(tasks.map_values(|t: Task| after_alert(t, at)), at).len() == 0,
    decreases tasks.len(),
{
    let m = tasks.map_values(|t: Task| after_alert(t, at));
    if tasks.len() > 0 {
        law_check_twice_silent(tasks.drop_last(), at);
        assert(m.drop_last() == tasks.drop_last().map_values(|t: Task| after_alert(t, at)));
        law_alert_once(tasks.last(), at, at);
        assert(m.last() == after_alert(tasks.last(), at));
        assert(alert_of(m.last(), at) is None);
    }
}

/// Each alert goes out once: after the due alert the task sends nothing
/// more, and after the early alert only the due alert can follow; a check
/// changes nothing but sent marks, and one that sends nothing leaves the
/// task as it was.
pub proof fn law_alert_once(t: Task, at: u64, later: u64)
    ensures
        same_but_sent(t, after_alert(t, at)),
        due_fires(t, at) ==> alert_of(after_alert(t, at), later) is None,
        early_fires(t, at) ==> !early_fires(after_alert(t, at), later),
        alert_of(t, at) is None ==> after_alert(t, at) == t,
        alert_of(after_alert(t, at), at) is None,
{
}

/// Waking after the due time sends the due alert alone: the stale early
/// alert is never sent once the due time has come.
pub proof fn law_overdue_coalesces(t: Task, at: u64)
    requires
        t.reminder matches Some(r) && at >= r.due_at,
    ensures
        !early_fires(t, at),
        due_fires(t, at) ==> !early_fires(after_alert(t, at), at) && after_alert(t, at).reminder->0.early_sent,
{
}

/// Completed and deleted tasks, tasks without a reminder and disabled
/// reminders send nothing and stay as they are.
pub proof fn law_quiet_tasks_silent(t: Task, at: u64)
    requires
        t.completed_at is Some || t.deleted_at is Some || t.reminder is None || !t.reminder->0.enabled,
    ensures
        alert_of(t, at) is None,
        after_alert(t, at) == t,
{
}

/// The task that `restore_deleted` brings back is the one deleted last; of
/// tasks deleted at the same time, the one that comes last. When no task is
/// deleted, nothing is restored.
pub proof fn law_restore_takes_latest(tasks: Seq<Task>)
    ensures
        latest_deleted(tasks) matches Some(b) ==> {
            &&& 0 <= b < tasks.len()
            &&& tasks[b].deleted_at is Some
            &&& forall|j: int|
                0 <= j < tasks.len() && (#[trigger] tasks[j]).deleted_at is Some ==> tasks[j].deleted_at->0
                    < tasks[b].deleted_at->0 || (tasks[j].deleted_at->0 == tasks[b].deleted_at->0 && j <= b)
        },
        latest_deleted(tasks) is None ==> forall|j: int| 0 <= j < tasks.len() ==> (#[trigger] tasks[j]).deleted_at is None,
    decreases tasks.len(),
{
    lemma_latest_deleted(tasks);
    if tasks.len() > 0 {
        let rest = tasks.drop_last();
        law_restore_takes_latest(rest);
        assert forall|j: int| 0 <= j < rest.len() implies rest[j] == tasks[j] by {}
    }
}

/// Undo right after a change brings back the list from before it. Every
/// change that `add` (adding at least one task), `edit`, `toggle` and
/// `delete` (of a present task), `restore_deleted` (returning true) and
/// `reorder` (of two present, different tasks) makes saves the list it
/// started from, so the history is not empty, `undo` returns true, and the
/// list it gives back is that list with, at most, more reminder alerts
/// marked as sent (those whose notifications `ns` are in the log); with no
/// notification for a task in the log, the task comes back exactly. `undo`
/// leaves the next id and the log as they are.
pub proof fn law_undo_after_change(before: Model, after: Model, ns: Seq<Notification>)
    requires
        after.history() == remembered(before.history(), before.document().tasks@),
    ensures
        after.history().len() > 0,
        after.history().last() == before.document().tasks@,
        after.history().drop_last() == (if before.history().len() >= 30 {
            before.history().drop_first()
        } else {
            before.history()
        }),
        forall|i: int|
            0 <= i < before.document().tasks@.len() ==> same_but_sent(
                before.document().tasks@[i],
                undo_marks(#[trigger] after.history().last()[i], ns),
            ),
        forall|i: int|
            0 <= i < before.document().tasks@.len() && (forall|k: int|
                0 <= k < ns.len() ==> (#[trigger] ns[k]).task_id != before.document().tasks@[i].id) ==> undo_marks(
                #[trigger] after.history().last()[i],
                ns,
            ) == before.document().tasks@[i],
{
    law_undo_restores(before.history(), before.document().tasks@, ns);
    let tasks = before.document().tasks@;
    assert forall|i: int| 0 <= i < tasks.len() implies same_but_sent(
        tasks[i],
        undo_marks(#[trigger] after.history().last()[i], ns),
    ) by {
        law_undo_keeps_all_but_sent(tasks[i], ns);
    }
    assert forall|i: int|
        0 <= i < tasks.len() && (forall|k: int| 0 <= k < ns.len() ==> (#[trigger] ns[k]).task_id != tasks[i].id)
        implies undo_marks(#[trigger] after.history().last()[i], ns) == tasks[i] by {
        law_undo_keeps_all_but_sent(tasks[i], ns);
    }
}

/// Undo marks an alert as sent only for a notification of the same task at
/// that alert's own time: the due alert counts as sent exactly when it was
/// already, or the log holds a notification for the task scheduled at the due
/// time; likewise the early alert with the early time. An early alert in the
/// log therefore never silences the due alert, and the rest of the task is
/// brought back unchanged.
pub proof fn law_undo_marks_by_time(t: Task, ns: Seq<Notification>)
    requires
        t.reminder is Some,
    ensures
        undo_marks(t, ns).reminder is Some,
        undo_marks(t, ns).reminder->0.due_sent == (t.reminder->0.due_sent || exists|k: int|
            0 <= k < ns.len() && (#[trigger] ns[k]).task_id == t.id && ns[k].scheduled_at == t.reminder->0.due_at),
        undo_marks(t, ns).reminder->0.early_sent == (t.reminder->0.early_sent || exists|k: int|
            0 <= k < ns.len() && (#[trigger] ns[k]).task_id == t.id && t.reminder->0.early_at == Some(ns[k].scheduled_at)),
        undo_marks(t, ns).reminder->0.due_at == t.reminder->0.due_at,
        undo_marks(t, ns).reminder->0.early_at == t.reminder->0.early_at,
        undo_marks(t, ns).reminder->0.enabled == t.reminder->0.enabled,
        undo_marks(t, ns).reminder->0.early_note == t.reminder->0.early_note,
        undo_marks(t, ns) == (Task { reminder: undo_marks(t, ns).reminder, ..t }),
{
}

/// Loading a document keeps every reminder the user set, sent marks
/// included, drops the ones that old releases inferred from the text, and
/// changes nothing else but the checked mark. So an alert that went out
/// before a restart is not sent again after it.
pub proof fn law_loading_keeps_set_reminders(t: Task, at: u64)
    ensures
        t.reminder_configured ==> task_loaded(t).reminder == t.reminder,
        !t.reminder_configured ==> task_loaded(t).reminder is None,
        task_loaded(t) == (Task { reminder: task_loaded(t).reminder, schedule_checked: true, ..t }),
        t.reminder_configured && (t.reminder matches Some(r) && r.due_sent && r.early_sent) ==> alert_of(
            task_loaded(t),
            at,
        ) is None,
{
}

} // verus!
