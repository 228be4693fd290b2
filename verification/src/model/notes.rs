//! Notes, the notification log and reminders as the document holds them.
use vstd::prelude::*;

use super::ids::first_pos;
use super::tasks::{has_task, task_index, task_pos};
use super::validate::{lemma_max_of_bound, lemma_max_of_ge, max_of};
use super::{Document, Note, Notification, Reminder, Task};
use crate::text::lit;

verus! {

/// The ids of `notes`, in order.
pub open spec fn note_ids(notes: Seq<Note>) -> Seq<u64> {
    notes.map_values(|n: Note| n.id)
}

/// Position of the first note with this id, or the number of notes.
pub open spec fn note_pos(notes: Seq<Note>, id: u64) -> nat {
    first_pos(note_ids(notes), id)
}

/// How many of the first `i` notifications are not yet acknowledged.
pub open spec fn unacked_before(ns: Seq<Notification>, i: int) -> nat
    decreases i,
{
    if i <= 0 || i > ns.len() {
        0
    } else {
        unacked_before(ns, i - 1) + if ns[i - 1].acknowledged {
            0nat
        } else {
            1nat
        }
    }
}

/// `n` is a new note with this id at `(x, y)`: the title "桌面便签", an
/// empty body, 360 by 360, shown and not pinned.
pub open spec fn is_new_note(n: Note, id: u64, x: i32, y: i32) -> bool {
    &&& n.id == id
    &&& n.title@ == "桌面便签"@
    &&& n.body@ == Seq::<char>::empty()
    &&& n.x == x && n.y == y
    &&& n.width == 360 && n.height == 360
    &&& n.visible && !n.topmost
}

fn note_index(notes: &Vec<Note>, id: u64) -> (p: usize)
    ensures
        p == note_pos(notes@, id),
        p <= notes@.len(),
{
    let mut i: usize = 0;
    while i < notes.len()
        invariant
            i <= notes@.len(),
            forall|j: int| 0 <= j < i ==> notes@[j].id != id,
        decreases notes.len() - i,
    {
        if notes[i].id == id {
            proof {
                assert forall|j: int| 0 <= j < i implies note_ids(notes@)[j] != id by {}
                super::ids::lemma_first_pos_at(note_ids(notes@), id, i as int);
            }
            return i;
        }
        i = i + 1;
    }
    proof {
        assert forall|j: int| 0 <= j < i implies note_ids(notes@)[j] != id by {}
        super::ids::lemma_first_pos_at(note_ids(notes@), id, i as int);
    }
    i
}

fn max_note_id(notes: &Vec<Note>) -> (m: u64)
    ensures
        m == max_of(note_ids(notes@)),
{
    let ghost ids = note_ids(notes@);
    let mut m: u64 = 0;
    for i in 0..notes.len()
        invariant
            ids == note_ids(notes@),
            m == max_of(ids.take(i as int)),
    {
        proof {
            assert(ids.take(i + 1).drop_last() == ids.take(i as int));
            assert(ids.take(i + 1).last() == notes@[i as int].id);
        }
        if notes[i].id > m {
            m = notes[i].id;
        }
    }
    assert(ids.take(notes@.len() as int) == ids);
    m
}

impl Document {
    /// Adds a note with the next id above every note id, placed at `(left,
    /// top)` moved down and right by 24 pixels per step of its id modulo 6.
    /// Refuses once there are 200 notes.
    pub fn add_note(&mut self, left: i32, top: i32) -> (r: Result<u64, String>)
        requires
            forall|i: int| 0 <= i < old(self).notes@.len() ==> (#[trigger] old(self).notes@[i]).id < u64::MAX,
            left <= i32::MAX - 120,
            top <= i32::MAX - 120,
        ensures
            old(self).notes@.len() >= 200 ==> (r matches Err(e) && e@ == "便签已达到 200 张上限"@ && *final(self) == *old(self)),
            old(self).notes@.len() < 200 ==> {
                let id = (max_of(note_ids(old(self).notes@)) + 1) as u64;
                let n = final(self).notes@.last();
                &&& r == Ok::<u64, String>(id)
                &&& *final(self) == (Document { notes: final(self).notes, ..*old(self) })
                &&& final(self).notes@ == old(self).notes@.push(n)
                &&& is_new_note(n, id, (left + (id % 6) * 24) as i32, (top + (id % 6) * 24) as i32)
                &&& forall|i: int| 0 <= i < old(self).notes@.len() ==> (#[trigger] old(self).notes@[i]).id != id
            },
    {
        if self.notes.len() >= 200 {
            return Err(lit("便签已达到 200 张上限"));
        }
        let m = max_note_id(&self.notes);
        proof {
            let ids = note_ids(old(self).notes@);
            if ids.len() > 0 {
                lemma_max_of_ge(ids, 0);
                assert(ids[0] == old(self).notes@[0].id);
            }
            assert forall|i: int| 0 <= i < old(self).notes@.len() implies (#[trigger] old(self).notes@[i]).id <= m by {
                lemma_max_of_ge(ids, i);
                assert(ids[i] == old(self).notes@[i].id);
            }
            assert forall|i: int| 0 <= i < ids.len() implies ids[i] <= u64::MAX - 1 by {
                assert(ids[i] == old(self).notes@[i].id);
            }
            lemma_max_of_bound(ids, (u64::MAX - 1) as u64);
        }
        let id = m + 1;
        let step = (id % 6) as i32 * 24;
        let mut note = Note::default();
        note.id = id;
        note.x = left + step;
        note.y = top + step;
        self.notes.push(note);
        Ok(id)
    }

    /// Hides the first note with this id; nothing happens when there is none.
    pub fn hide_note(&mut self, id: u64)
        ensures
            note_pos(old(self).notes@, id) >= old(self).notes@.len() ==> *final(self) == *old(self),
            note_pos(old(self).notes@, id) < old(self).notes@.len() ==> {
                let p = note_pos(old(self).notes@, id) as int;
                &&& *final(self) == (Document { notes: final(self).notes, ..*old(self) })
                &&& final(self).notes@ == old(self).notes@.update(p, Note { visible: false, ..old(self).notes@[p] })
            },
    {
        let p = note_index(&self.notes, id);
        if p < self.notes.len() {
            self.notes[p].visible = false;
        }
    }

    /// Shows every note.
    pub fn show_notes(&mut self)
        ensures
            *final(self) == (Document { notes: final(self).notes, ..*old(self) }),
            final(self).notes@ == old(self).notes@.map_values(|n: Note| Note { visible: true, ..n }),
    {
        let n = self.notes.len();
        for i in 0..n
            invariant
                n == self.notes@.len(),
                n == old(self).notes@.len(),
                *self == (Document { notes: self.notes, ..*old(self) }),
                forall|j: int| 0 <= j < i ==> self.notes@[j] == (Note { visible: true, ..old(self).notes@[j] }),
                forall|j: int| i <= j < n ==> self.notes@[j] == old(self).notes@[j],
        {
            self.notes[i].visible = true;
        }
        assert(self.notes@ == old(self).notes@.map_values(|n: Note| Note { visible: true, ..n }));
    }

    /// Removes every note with this id.
    pub fn delete_note(&mut self, id: u64)
        ensures
            *final(self) == (Document { notes: final(self).notes, ..*old(self) }),
            final(self).notes@ == old(self).notes@.filter(|n: Note| n.id != id),
    {
        let mut kept: Vec<Note> = Vec::new();
        let mut old_notes: Vec<Note> = Vec::new();
        std::mem::swap(&mut old_notes, &mut self.notes);
        let ghost start = old_notes@;
        let n = old_notes.len();
        let mut rest = old_notes;
        let mut i: usize = 0;
        while rest.len() > 0
            invariant
                i + rest@.len() == n,
                n == start.len(),
                start == old(self).notes@,
                rest@ == start.skip(i as int),
                kept@ == start.take(i as int).filter(|n: Note| n.id != id),
                *self == (Document { notes: self.notes, ..*old(self) }),
            decreases rest@.len(),
        {
            let note = rest.remove(0);
            proof {
                let t = start.take(i + 1);
                assert(t.drop_last() == start.take(i as int));
                assert(t.last() == note);
                reveal_with_fuel(Seq::filter, 1);
                assert(rest@ == start.skip(i + 1));
            }
            if note.id != id {
                kept.push(note);
            }
            i = i + 1;
        }
        assert(start.take(n as int) == start);
        self.notes = kept;
    }

    /// Pins the first note with this id, or unpins it when pinned; returns
    /// whether it is now pinned, or `None` when there is no such note.
    pub fn toggle_note_pin(&mut self, id: u64) -> (r: Option<bool>)
        ensures
            note_pos(old(self).notes@, id) >= old(self).notes@.len() ==> r is None && *final(self) == *old(self),
            note_pos(old(self).notes@, id) < old(self).notes@.len() ==> {
                let p = note_pos(old(self).notes@, id) as int;
                let o = old(self).notes@[p];
                &&& r == Some(!o.topmost)
                &&& *final(self) == (Document { notes: final(self).notes, ..*old(self) })
                &&& final(self).notes@ == old(self).notes@.update(p, Note { topmost: !o.topmost, ..o })
            },
    {
        let p = note_index(&self.notes, id);
        if p < self.notes.len() {
            let pinned = !self.notes[p].topmost;
            self.notes[p].topmost = pinned;
            Some(pinned)
        } else {
            None
        }
    }

    /// Marks the first `k` notifications that are not yet acknowledged as
    /// acknowledged, in order.
    pub fn acknowledge(&mut self, k: usize)
        ensures
            *final(self) == (Document { notifications: final(self).notifications, ..*old(self) }),
            final(self).notifications@.len() == old(self).notifications@.len(),
            forall|i: int|
                0 <= i < old(self).notifications@.len() ==> #[trigger] final(self).notifications@[i] == (Notification {
                    acknowledged: old(self).notifications@[i].acknowledged || unacked_before(old(self).notifications@, i) < k,
                    ..old(self).notifications@[i]
                }),
    {
        let ghost ns = old(self).notifications@;
        let n = self.notifications.len();
        let mut seen: usize = 0;
        for i in 0..n
            invariant
                n == self.notifications@.len(),
                n == ns.len(),
                ns == old(self).notifications@,
                *self == (Document { notifications: self.notifications, ..*old(self) }),
                seen == unacked_before(ns, i as int),
                seen <= i,
                forall|j: int| 0 <= j < i ==> #[trigger] self.notifications@[j] == (Notification {
                    acknowledged: ns[j].acknowledged || unacked_before(ns, j) < k,
                    ..ns[j]
                }),
                forall|j: int| i <= j < n ==> self.notifications@[j] == ns[j],
        {
            if !self.notifications[i].acknowledged {
                if seen < k {
                    self.notifications[i].acknowledged = true;
                }
                seen = seen + 1;
            }
        }
    }

    /// Gives the task with this id the reminder the user configured, marked
    /// as set explicitly; returns whether there was such a task.
    pub fn set_reminder(&mut self, task_id: u64, reminder: Reminder) -> (r: bool)
        ensures
            r == has_task(old(self).tasks@, task_id),
            !r ==> *final(self) == *old(self),
            r ==> {
                let p = task_pos(old(self).tasks@, task_id) as int;
                &&& *final(self) == (Document { tasks: final(self).tasks, ..*old(self) })
                &&& final(self).tasks@ == old(self).tasks@.update(p, Task {
                    reminder: Some(reminder),
                    reminder_configured: true,
                    schedule_checked: true,
                    ..old(self).tasks@[p]
                })
            },
    {
        let p = task_index(&self.tasks, task_id);
        if p >= self.tasks.len() {
            return false;
        }
        self.tasks[p].reminder = Some(reminder);
        self.tasks[p].reminder_configured = true;
        self.tasks[p].schedule_checked = true;
        true
    }
}

} // verus!
