//! Checking and normalizing a document read from disk or imported.
use vstd::prelude::*;

use super::document::{clean_title, dedup, dedup_ids, goal_ids, node_total, normal_shape};
use super::goal::{has_node, node_ids};
use super::graph::acyclic;
use super::soundness::{goals_structured, refs_exist, unique_steps};
use super::tasks::ids_below;
use super::{Document, Goal, GoalNode, Note, Settings, Task, MAX_JSON_ID};
use crate::text::{append, clean_line, clean_text, decimal, has_nul, lit, prefix, push_decimal, remove_nul, utf8_len_over};
use vstd::utf8::encode_utf8;

verus! {

broadcast use vstd::std_specs::hash::group_hash_axioms;

/// The latest time a reminder may be due: 9999-12-31 in milliseconds.
pub const LAST_DUE_AT: u64 = 253402214400000;

/// Length of the UTF-8 encoding of `s`, in bytes.
pub open spec fn utf8_len(s: Seq<char>) -> nat {
    encode_utf8(s).len()
}

/// `v` moved into `lo..=hi`.
pub open spec fn clamp(v: i32, lo: i32, hi: i32) -> i32 {
    if v < lo {
        lo
    } else if v > hi {
        hi
    } else {
        v
    }
}

fn clamp_i32(v: i32, lo: i32, hi: i32) -> (r: i32)
    ensures
        r == clamp(v, lo, hi),
{
    if v < lo {
        lo
    } else if v > hi {
        hi
    } else {
        v
    }
}

/// Task `i` has an invalid id, an over-long text, a NUL, or the id of an earlier task.
pub open spec fn task_bad(tasks: Seq<Task>, i: int) -> bool {
    let t = tasks[i];
    ||| t.id == 0
    ||| t.id > MAX_JSON_ID
    ||| utf8_len(t.text@) > 100_000
    ||| t.text@.contains('\0')
    ||| exists|j: int| 0 <= j < i && #[trigger] tasks[j].id == t.id
}

/// The task's reminder is due after year 9999, or its early alert is not before it.
pub open spec fn reminder_bad(t: Task) -> bool {
    t.reminder matches Some(r) && (r.due_at > LAST_DUE_AT || (r.early_at matches Some(e) && e >= r.due_at))
}

/// The first complaint about tasks `i..`, in order.
pub open spec fn tasks_error(tasks: Seq<Task>, i: int) -> Option<Seq<char>>
    decreases tasks.len() - i,
{
    if i < 0 || i >= tasks.len() {
        None
    } else if task_bad(tasks, i) {
        Some("任务数据包含无效内容或重复 ID"@)
    } else if reminder_bad(tasks[i]) {
        Some("无效的提醒时间"@)
    } else {
        tasks_error(tasks, i + 1)
    }
}

/// Note `i` has an invalid or repeated id, an over-long or NUL-holding title or body.
pub open spec fn note_bad(notes: Seq<Note>, i: int) -> bool {
    let n = notes[i];
    ||| n.id == 0
    ||| n.id > MAX_JSON_ID
    ||| (exists|j: int| 0 <= j < i && #[trigger] notes[j].id == n.id)
    ||| utf8_len(n.body@) > 1_000_000
    ||| utf8_len(n.title@) > 1000
    ||| n.body@.contains('\0')
    ||| n.title@.contains('\0')
}

/// The note as stored: its size moved into the allowed range.
pub open spec fn note_clamped(old: Note, new: Note) -> bool {
    new == (Note { width: clamp(old.width, 260, 1600), height: clamp(old.height, 220, 1400), ..old })
}

/// Checks the tasks in order.
fn check_tasks(tasks: &Vec<Task>) -> (r: Result<(), String>)
    ensures
        match tasks_error(tasks@, 0) {
            Some(msg) => r matches Err(e) && e@ == msg,
            None => r is Ok,
        },
{
    let mut ids: std::collections::HashSet<u64> = std::collections::HashSet::new();
    let n = tasks.len();
    for i in 0..n
        invariant
            n == tasks@.len(),
            forall|x: u64| ids@.contains(x) <==> exists|j: int| 0 <= j < i && #[trigger] tasks@[j].id == x,
            tasks_error(tasks@, 0) == tasks_error(tasks@, i as int),
    {
        let t = &tasks[i];
        let fresh = ids.insert(t.id);
        proof {
            if !fresh {
                let j = choose|j: int| 0 <= j < i && #[trigger] tasks@[j].id == t.id;
                assert(tasks@[j].id == tasks@[i as int].id);
            }
            if exists|j: int| 0 <= j < i && #[trigger] tasks@[j].id == t.id {
                assert(!fresh);
            }
        }
        if t.id == 0 || t.id > MAX_JSON_ID || utf8_len_over(t.text.as_str(), 100_000) || has_nul(t.text.as_str()) || !fresh {
            assert(task_bad(tasks@, i as int));
            return Err(lit("任务数据包含无效内容或重复 ID"));
        }
        assert(!task_bad(tasks@, i as int));
        match &t.reminder {
            Some(r) => {
                let early_bad = match r.early_at {
                    Some(e) => e >= r.due_at,
                    None => false,
                };
                if r.due_at > LAST_DUE_AT || early_bad {
                    assert(reminder_bad(tasks@[i as int]));
                    return Err(lit("无效的提醒时间"));
                }
            },
            None => {},
        }
        assert(!reminder_bad(tasks@[i as int]));
        assert(tasks_error(tasks@, i as int) == tasks_error(tasks@, i + 1));
        assert(forall|x: u64| ids@.contains(x) <==> exists|j: int| 0 <= j < i + 1 && #[trigger] tasks@[j].id == x) by {
            assert forall|x: u64| ids@.contains(x) implies exists|j: int| 0 <= j < i + 1 && #[trigger] tasks@[j].id == x by {
                if x == t.id {
                    assert(tasks@[i as int].id == x);
                }
            }
        }
    }
    Ok(())
}

/// Position of the first invalid note from `i` on, or the number of notes.
pub open spec fn first_bad_note(notes: Seq<Note>, i: int) -> int
    decreases notes.len() - i,
{
    if i < 0 || i >= notes.len() {
        notes.len() as int
    } else if note_bad(notes, i) {
        i
    } else {
        first_bad_note(notes, i + 1)
    }
}

/// The notes after a complaint about one of them: those before the first
/// invalid note are moved into range, the rest are as they were.
pub open spec fn notes_cleaned_until_error(old: Seq<Note>, new: Seq<Note>) -> bool {
    let p = first_bad_note(old, 0);
    &&& new.len() == old.len()
    &&& forall|j: int| 0 <= j < p ==> note_clamped(old[j], #[trigger] new[j])
    &&& forall|j: int| p <= j < old.len() ==> #[trigger] new[j] == old[j]
}

/// Checks the notes in order and moves each valid note's size into range.
/// On an invalid note the notes before it are already moved.
fn check_notes(notes: &mut Vec<Note>) -> (r: Result<(), String>)
    ensures
        final(notes)@.len() == old(notes)@.len(),
        r is Ok <==> forall|i: int| 0 <= i < old(notes)@.len() ==> !note_bad(old(notes)@, i),
        r is Err ==> (r matches Err(e) && e@ == "便签数据无效"@),
        r is Ok ==> forall|i: int| 0 <= i < old(notes)@.len() ==> note_clamped(old(notes)@[i], #[trigger] final(notes)@[i]),
        r is Err ==> notes_cleaned_until_error(old(notes)@, final(notes)@),
{
    let mut ids: std::collections::HashSet<u64> = std::collections::HashSet::new();
    let n = notes.len();
    let ghost start = notes@;
    for i in 0..n
        invariant
            n == notes@.len(),
            start == old(notes)@,
            n == start.len(),
            forall|x: u64| ids@.contains(x) <==> exists|j: int| 0 <= j < i && #[trigger] start[j].id == x,
            forall|j: int| 0 <= j < i ==> !note_bad(start, j),
            forall|j: int| 0 <= j < i ==> note_clamped(start[j], #[trigger] notes@[j]),
            forall|j: int| i <= j < n ==> notes@[j] == start[j],
            first_bad_note(start, 0) == first_bad_note(start, i as int),
    {
        let id = notes[i].id;
        let fresh = ids.insert(id);
        proof {
            if !fresh {
                let j = choose|j: int| 0 <= j < i && #[trigger] start[j].id == id;
            }
            if exists|j: int| 0 <= j < i && #[trigger] start[j].id == id {
                assert(!fresh);
            }
        }
        if id == 0 || id > MAX_JSON_ID || !fresh || utf8_len_over(notes[i].body.as_str(), 1_000_000)
            || utf8_len_over(notes[i].title.as_str(), 1000) || has_nul(notes[i].body.as_str())
            || has_nul(notes[i].title.as_str()) {
            assert(note_bad(start, i as int));
            assert(first_bad_note(start, i as int) == i);
            return Err(lit("便签数据无效"));
        }
        assert(!note_bad(start, i as int));
        assert(first_bad_note(start, i as int) == first_bad_note(start, i + 1));
        let w = clamp_i32(notes[i].width, 260, 1600);
        let h = clamp_i32(notes[i].height, 220, 1400);
        notes[i].width = w;
        notes[i].height = h;
        assert(forall|x: u64| ids@.contains(x) <==> exists|j: int| 0 <= j < i + 1 && #[trigger] start[j].id == x) by {
            assert forall|x: u64| ids@.contains(x) implies exists|j: int| 0 <= j < i + 1 && #[trigger] start[j].id == x by {
                if x == id {
                    assert(start[i as int].id == x);
                }
            }
        }
    }
    Ok(())
}


/// Prerequisites as stored: ids above zero, each once.
pub open spec fn clean_requires(s: Seq<u64>) -> Seq<u64> {
    dedup(s.filter(|id: u64| id > 0))
}

/// A step as `validate` stores it.
pub open spec fn node_normalized(old: GoalNode, new: GoalNode) -> bool {
    &&& new == (GoalNode {
        title: new.title,
        description: new.description,
        requires: new.requires,
        shape: normal_shape(old.shape),
        ..old
    })
    &&& new.title@ == clean_title(old.title@)
    &&& new.description@ == prefix(remove_nul(old.description@), 2000)
    &&& new.requires@ == clean_requires(old.requires@)
}

/// A goal as `validate` stores it.
pub open spec fn goal_normalized(old: Goal, new: Goal) -> bool {
    &&& new == (Goal { title: new.title, description: new.description, nodes: new.nodes, ..old })
    &&& new.title@ == clean_title(old.title@)
    &&& new.description@ == prefix(remove_nul(old.description@), 2000)
    &&& new.nodes@.len() == old.nodes@.len()
    &&& forall|j: int| 0 <= j < old.nodes@.len() ==> node_normalized(old.nodes@[j], #[trigger] new.nodes@[j])
}

/// Goal `i` has an invalid id, an empty title once cleaned, or the id of an earlier goal.
pub open spec fn goal_bad(goals: Seq<Goal>, i: int) -> bool {
    let g = goals[i];
    ||| g.id == 0
    ||| g.id > MAX_JSON_ID
    ||| clean_title(g.title@).len() == 0
    ||| exists|a: int| 0 <= a < i && #[trigger] goals[a].id == g.id
}

/// Step `j` of goal `i` repeats the id of a step before it, in any goal.
pub open spec fn node_seen(goals: Seq<Goal>, i: int, j: int) -> bool {
    let x = goals[i].nodes@[j].id;
    ||| exists|a: int, b: int|
        0 <= a < i && 0 <= b < goals[a].nodes@.len() && (#[trigger] goals[a].nodes@[b]).id == x
    ||| exists|b: int| 0 <= b < j && (#[trigger] goals[i].nodes@[b]).id == x
}

/// Step `j` of goal `i` has an invalid or repeated id or an empty title once cleaned.
pub open spec fn node_bad(goals: Seq<Goal>, i: int, j: int) -> bool {
    let n = goals[i].nodes@[j];
    ||| n.id == 0
    ||| n.id > MAX_JSON_ID
    ||| clean_title(n.title@).len() == 0
    ||| node_seen(goals, i, j)
}

/// The complaint about goal `i` and its steps, if any.
pub open spec fn goal_stage_error(goals: Seq<Goal>, i: int) -> Option<Seq<char>> {
    let before = node_total(goals.take(i));
    let here = goals[i].nodes@.len();
    if goal_bad(goals, i) {
        Some("大目标包含无效内容或重复 ID"@)
    } else if before + here > usize::MAX {
        Some("小目标数量溢出"@)
    } else if before + here > 2000 {
        Some("小目标数量超过 2000 个上限"@)
    } else if exists|j: int| 0 <= j < here && node_bad(goals, i, j) {
        Some("小目标包含无效内容或重复 ID"@)
    } else {
        None
    }
}

/// The first complaint about goals `i..`, in order.
pub open spec fn goals_error(goals: Seq<Goal>, i: int) -> Option<Seq<char>>
    decreases goals.len() - i,
{
    if i < 0 || i >= goals.len() {
        None
    } else {
        match goal_stage_error(goals, i) {
            Some(msg) => Some(msg),
            None => goals_error(goals, i + 1),
        }
    }
}

/// The ids of `v` above zero.
fn positive_ids(v: &Vec<u64>) -> (r: Vec<u64>)
    ensures
        r@ == v@.filter(|id: u64| id > 0),
{
    let mut r: Vec<u64> = Vec::new();
    for i in 0..v.len()
        invariant
            r@ == v@.take(i as int).filter(|id: u64| id > 0),
    {
        proof {
            let t = v@.take(i + 1);
            assert(t.drop_last() == v@.take(i as int));
            assert(t.last() == v@[i as int]);
            reveal_with_fuel(Seq::filter, 1);
        }
        if v[i] > 0 {
            r.push(v[i]);
        }
    }
    assert(v@.take(v.len() as int) == v@);
    r
}

/// Cleans a step's title, description, prerequisites and shape.
fn normalize_node(n: &mut GoalNode)
    ensures
        node_normalized(*old(n), *final(n)),
{
    let title = clean_line(n.title.as_str(), 200);
    let description = clean_text(n.description.as_str(), 2000);
    let positive = positive_ids(&n.requires);
    let reqs = dedup_ids(&positive);
    n.title = title;
    n.description = description;
    n.requires = reqs;
    if !(-1 <= n.shape && n.shape <= 2) {
        n.shape = -1;
    }
}

/// Position of the first goal with a complaint from `i` on, or the number of goals.
pub open spec fn first_failing_goal(goals: Seq<Goal>, i: int) -> int
    decreases goals.len() - i,
{
    if i < 0 || i >= goals.len() {
        goals.len() as int
    } else if goal_stage_error(goals, i) is Some {
        i
    } else {
        first_failing_goal(goals, i + 1)
    }
}

/// Position of the first invalid step of goal `a` from `j` on, or the number of its steps.
pub open spec fn first_bad_node(goals: Seq<Goal>, a: int, j: int) -> int
    decreases goals[a].nodes@.len() - j,
{
    if j < 0 || j >= goals[a].nodes@.len() {
        goals[a].nodes@.len() as int
    } else if node_bad(goals, a, j) {
        j
    } else {
        first_bad_node(goals, a, j + 1)
    }
}

/// Goal `a` passed its own checks and the step count, so its complaint is
/// about one of its steps.
pub open spec fn fails_at_step(goals: Seq<Goal>, a: int) -> bool {
    !goal_bad(goals, a) && node_total(goals.take(a)) + goals[a].nodes@.len() <= 2000
}

/// The goals after a complaint about one of them or its steps: the goals
/// before it are cleaned; its title and description are cleaned, and when
/// the complaint is about a step, its steps up to and including the invalid
/// one are cleaned; everything after is as it was.
pub open spec fn goals_cleaned_until_error(old: Seq<Goal>, new: Seq<Goal>) -> bool {
    let f = first_failing_goal(old, 0);
    &&& new.len() == old.len()
    &&& forall|a: int| 0 <= a < f ==> goal_normalized(old[a], #[trigger] new[a])
    &&& forall|a: int| f < a < old.len() ==> #[trigger] new[a] == old[a]
    &&& 0 <= f < old.len() ==> {
        let g = old[f];
        let h = new[f];
        let k = first_bad_node(old, f, 0);
        &&& h == (Goal { title: h.title, description: h.description, nodes: h.nodes, ..g })
        &&& h.title@ == clean_title(g.title@)
        &&& h.description@ == prefix(remove_nul(g.description@), 2000)
        &&& h.nodes@.len() == g.nodes@.len()
        &&& if fails_at_step(old, f) {
            &&& forall|b: int| 0 <= b <= k && b < g.nodes@.len() ==> node_normalized(g.nodes@[b], #[trigger] h.nodes@[b])
            &&& forall|b: int| k < b < g.nodes@.len() ==> #[trigger] h.nodes@[b] == g.nodes@[b]
        } else {
            h.nodes == g.nodes
        }
    }
}

/// Cleans every goal and step, in order, and checks their ids, titles and
/// the number of steps. On a complaint, what came before it is already cleaned.
fn normalize_goals(goals: &mut Vec<Goal>) -> (r: Result<(), String>)
    ensures
        final(goals)@.len() == old(goals)@.len(),
        match goals_error(old(goals)@, 0) {
            Some(msg) => r matches Err(e) && e@ == msg,
            None => {
                &&& r is Ok
                &&& forall|i: int| 0 <= i < old(goals)@.len() ==> goal_normalized(old(goals)@[i], #[trigger] final(goals)@[i])
            },
        },
        r is Err ==> goals_cleaned_until_error(old(goals)@, final(goals)@),
{
    let ghost start = goals@;
    let n = goals.len();
    let mut goal_set: std::collections::HashSet<u64> = std::collections::HashSet::new();
    let mut node_set: std::collections::HashSet<u64> = std::collections::HashSet::new();
    let mut total: usize = 0;
    for i in 0..n
        invariant
            n == goals@.len(),
            start == old(goals)@,
            start.len() == n,
            forall|a: int| 0 <= a < i ==> goal_normalized(start[a], #[trigger] goals@[a]),
            forall|a: int| i <= a < n ==> goals@[a] == start[a],
            goals_error(start, 0) == goals_error(start, i as int),
            first_failing_goal(start, 0) == first_failing_goal(start, i as int),
            forall|x: u64| goal_set@.contains(x) <==> exists|a: int| 0 <= a < i && #[trigger] start[a].id == x,
            forall|x: u64| node_set@.contains(x) <==> exists|a: int, b: int|
                0 <= a < i && 0 <= b < start[a].nodes@.len() && (#[trigger] start[a].nodes@[b]).id == x,
            total == node_total(start.take(i as int)),
            total <= 2000,
    {
        let title = clean_line(goals[i].title.as_str(), 200);
        let description = clean_text(goals[i].description.as_str(), 2000);
        goals[i].title = title;
        goals[i].description = description;
        let id = goals[i].id;
        let fresh = goal_set.insert(id);
        proof {
            if exists|a: int| 0 <= a < i && #[trigger] start[a].id == id {
                assert(!fresh);
            }
        }
        if id == 0 || id > MAX_JSON_ID || goals[i].title.as_str().is_empty() || !fresh {
            proof {
                if !fresh {
                    let a = choose|a: int| 0 <= a < i && #[trigger] start[a].id == id;
                }
                assert(goal_bad(start, i as int));
                assert(goal_stage_error(start, i as int) == Some("大目标包含无效内容或重复 ID"@));
                assert(first_failing_goal(start, i as int) == i);
                assert(!fails_at_step(start, i as int));
            }
            return Err(lit("大目标包含无效内容或重复 ID"));
        }
        assert(!goal_bad(start, i as int));
        let count = goals[i].nodes.len();
        proof {
            assert(start.take(i + 1).drop_last() == start.take(i as int));
            assert(start.take(i + 1).last() == start[i as int]);
        }
        let sum = match total.checked_add(count) {
            Some(t) => t,
            None => {
                proof {
                    assert(goal_stage_error(start, i as int) is Some);
                    assert(first_failing_goal(start, i as int) == i);
                    assert(!fails_at_step(start, i as int));
                }
                return Err(lit("小目标数量溢出"));
            },
        };
        if sum > 2000 {
            proof {
                assert(goal_stage_error(start, i as int) is Some);
                assert(first_failing_goal(start, i as int) == i);
                assert(!fails_at_step(start, i as int));
            }
            return Err(lit("小目标数量超过 2000 个上限"));
        }
        let ghost node_set_start = node_set@;
        let ghost mid = goals@[i as int];
        for j in 0..count
            invariant
                n == goals@.len(),
                start == old(goals)@,
                start.len() == n,
                0 <= i < n,
                count == start[i as int].nodes@.len(),
                goals@[i as int].nodes@.len() == count,
                goals@[i as int] == (Goal { nodes: goals@[i as int].nodes, ..mid }),
                mid == (Goal { title: mid.title, description: mid.description, ..start[i as int] }),
                mid.title@ == clean_title(start[i as int].title@),
                mid.description@ == prefix(remove_nul(start[i as int].description@), 2000),
                forall|a: int| 0 <= a < n && a != i ==> goals@[a] == old(goals)@[a] || (a < i && goal_normalized(start[a], goals@[a])),
                forall|a: int| 0 <= a < i ==> goal_normalized(start[a], #[trigger] goals@[a]),
                forall|a: int| i < a < n ==> goals@[a] == start[a],
                forall|b: int| 0 <= b < j ==> node_normalized(start[i as int].nodes@[b], #[trigger] goals@[i as int].nodes@[b]),
                forall|b: int| j <= b < count ==> goals@[i as int].nodes@[b] == start[i as int].nodes@[b],
                forall|b: int| 0 <= b < j ==> !node_bad(start, i as int, b),
                !goal_bad(start, i as int),
                goal_stage_error(start, i as int) == (if exists|b: int| 0 <= b < count && node_bad(start, i as int, b) {
                    Some("小目标包含无效内容或重复 ID"@)
                } else {
                    None
                }),
                forall|x: u64| #[trigger] node_set@.contains(x) ==> (node_set_start.contains(x) || exists|b: int|
                    0 <= b < j && (#[trigger] start[i as int].nodes@[b]).id == x),
                forall|x: u64| #[trigger] node_set_start.contains(x) ==> node_set@.contains(x),
                forall|b: int| 0 <= b < j ==> node_set@.contains((#[trigger] start[i as int].nodes@[b]).id),
                goals_error(start, 0) == goals_error(start, i as int),
                first_failing_goal(start, 0) == first_failing_goal(start, i as int),
                fails_at_step(start, i as int),
                first_bad_node(start, i as int, 0) == first_bad_node(start, i as int, j as int),
                forall|x: u64| node_set_start.contains(x) <==> exists|a: int, b: int|
                    0 <= a < i && 0 <= b < start[a].nodes@.len() && (#[trigger] start[a].nodes@[b]).id == x,
        {
            normalize_node(&mut goals[i].nodes[j]);
            let node_id = goals[i].nodes[j].id;
            assert(node_id == start[i as int].nodes@[j as int].id);
            let ghost before = node_set@;
            let node_fresh = node_set.insert(node_id);
            proof {
                if node_seen(start, i as int, j as int) {
                    if exists|a: int, b: int|
                        0 <= a < i && 0 <= b < start[a].nodes@.len() && (#[trigger] start[a].nodes@[b]).id == node_id {
                        assert(node_set_start.contains(node_id));
                    } else {
                        let b = choose|b: int| 0 <= b < j && (#[trigger] start[i as int].nodes@[b]).id == node_id;
                        assert(before.contains(start[i as int].nodes@[b].id));
                    }
                    assert(before.contains(node_id));
                    assert(!node_fresh);
                }
            }
            if node_id == 0 || node_id > MAX_JSON_ID || goals[i].nodes[j].title.as_str().is_empty() || !node_fresh {
                proof {
                    if !node_fresh {
                        assert(before.contains(node_id));
                        assert(node_set_start.contains(node_id) || exists|b: int|
                            0 <= b < j && (#[trigger] start[i as int].nodes@[b]).id == node_id);
                        if node_set_start.contains(node_id) {
                            let (a, b) = choose|a: int, b: int|
                                0 <= a < i && 0 <= b < start[a].nodes@.len() && (#[trigger] start[a].nodes@[b]).id == node_id;
                        } else {
                            let b = choose|b: int| 0 <= b < j && (#[trigger] start[i as int].nodes@[b]).id == node_id;
                        }
                    }
                    assert(node_bad(start, i as int, j as int));
                    assert(!goal_bad(start, i as int));
                    assert(goal_stage_error(start, i as int) == Some("小目标包含无效内容或重复 ID"@));
                    assert(first_failing_goal(start, i as int) == i);
                    assert(first_bad_node(start, i as int, j as int) == j);
                    assert(fails_at_step(start, i as int));
                }
                return Err(lit("小目标包含无效内容或重复 ID"));
            }
            assert(!node_bad(start, i as int, j as int));
            assert(first_bad_node(start, i as int, j as int) == first_bad_node(start, i as int, j + 1));
        }
        total = sum;
        proof {
            assert(goal_stage_error(start, i as int) is None);
            assert(first_failing_goal(start, i as int) == first_failing_goal(start, i + 1));
            assert(goal_normalized(start[i as int], goals@[i as int]));
            assert forall|x: u64| node_set@.contains(x) implies exists|a: int, b: int|
                0 <= a < i + 1 && 0 <= b < start[a].nodes@.len() && (#[trigger] start[a].nodes@[b]).id == x by {
                if !node_set_start.contains(x) {
                    let b = choose|b: int| 0 <= b < count && (#[trigger] start[i as int].nodes@[b]).id == x;
                    assert(start[i as int].nodes@[b].id == x);
                } else {
                    let (a, b) = choose|a: int, b: int|
                        0 <= a < i && 0 <= b < start[a].nodes@.len() && (#[trigger] start[a].nodes@[b]).id == x;
                    assert(start[a].nodes@[b].id == x);
                }
            }
            assert forall|x: u64| (exists|a: int, b: int|
                0 <= a < i + 1 && 0 <= b < start[a].nodes@.len() && (#[trigger] start[a].nodes@[b]).id == x)
                implies node_set@.contains(x) by {
                let (a, b) = choose|a: int, b: int|
                    0 <= a < i + 1 && 0 <= b < start[a].nodes@.len() && (#[trigger] start[a].nodes@[b]).id == x;
                if a < i {
                    assert(node_set_start.contains(x));
                } else {
                    assert(start[i as int].nodes@[b].id == x);
                }
            }
            assert forall|x: u64| goal_set@.contains(x) <==> exists|a: int| 0 <= a < i + 1 && #[trigger] start[a].id == x by {
                if x == id {
                    assert(start[i as int].id == x);
                }
            }
        }
    }
    Ok(())
}


/// A step requires itself or an id that is no step of its goal.
pub open spec fn refs_bad(g: Goal) -> bool {
    exists|j: int, k: int|
        0 <= j < g.nodes@.len() && 0 <= k < g.nodes@[j].requires@.len() && ({
            let r = #[trigger] g.nodes@[j].requires@[k];
            r == g.nodes@[j].id || !has_node(g, r)
        })
}

/// The complaint about the prerequisites of goals `i..`, in order.
pub open spec fn deps_error(goals: Seq<Goal>, i: int) -> Option<Seq<char>>
    decreases goals.len() - i,
{
    if i < 0 || i >= goals.len() {
        None
    } else if refs_bad(goals[i]) {
        Some("小目标包含不存在或指向自身的前置条件"@)
    } else if !acyclic(goals[i]) {
        Some("小目标前置条件形成了循环"@)
    } else {
        deps_error(goals, i + 1)
    }
}

fn check_refs(g: &Goal) -> (r: bool)
    ensures
        r == !refs_bad(*g),
{
    let n = g.nodes.len();
    for j in 0..n
        invariant
            n == g.nodes@.len(),
            forall|a: int, k: int|
                0 <= a < j && 0 <= k < g.nodes@[a].requires@.len() ==> ({
                    let r = #[trigger] g.nodes@[a].requires@[k];
                    r != g.nodes@[a].id && has_node(*g, r)
                }),
    {
        let m = g.nodes[j].requires.len();
        for k in 0..m
            invariant
                n == g.nodes@.len(),
                0 <= j < n,
                m == g.nodes@[j as int].requires@.len(),
                forall|a: int, k: int|
                    0 <= a < j && 0 <= k < g.nodes@[a].requires@.len() ==> ({
                        let r = #[trigger] g.nodes@[a].requires@[k];
                        r != g.nodes@[a].id && has_node(*g, r)
                    }),
                forall|b: int|
                    0 <= b < k ==> ({
                        let r = #[trigger] g.nodes@[j as int].requires@[b];
                        r != g.nodes@[j as int].id && has_node(*g, r)
                    }),
        {
            let r = g.nodes[j].requires[k];
            if r == g.nodes[j].id || g.find_node(r).is_none() {
                assert(refs_bad(*g)) by {
                    assert(g.nodes@[j as int].requires@[k as int] == r);
                }
                return false;
            }
        }
    }
    true
}

/// Checks the prerequisites of each goal, in order.
fn check_dependencies(goals: &Vec<Goal>) -> (r: Result<(), String>)
    ensures
        match deps_error(goals@, 0) {
            Some(msg) => r matches Err(e) && e@ == msg,
            None => r is Ok,
        },
{
    let n = goals.len();
    for i in 0..n
        invariant
            n == goals@.len(),
            deps_error(goals@, 0) == deps_error(goals@, i as int),
    {
        if !check_refs(&goals[i]) {
            return Err(lit("小目标包含不存在或指向自身的前置条件"));
        }
        if !goals[i].dependencies_acyclic() {
            return Err(lit("小目标前置条件形成了循环"));
        }
    }
    Ok(())
}

/// The largest of `s`, or 0 when it is empty.
pub open spec fn max_of(s: Seq<u64>) -> nat
    decreases s.len(),
{
    if s.len() == 0 {
        0
    } else if s.last() > max_of(s.drop_last()) {
        s.last() as nat
    } else {
        max_of(s.drop_last())
    }
}

/// The largest step id of all goals, or 0.
pub open spec fn node_id_max(goals: Seq<Goal>) -> nat
    decreases goals.len(),
{
    if goals.len() == 0 {
        0
    } else {
        let here = max_of(node_ids(goals.last().nodes@));
        let rest = node_id_max(goals.drop_last());
        if here > rest {
            here
        } else {
            rest
        }
    }
}

/// The first free id after `m`, never below `next`.
pub open spec fn next_after(next: u64, m: nat) -> nat {
    if next > m + 1 {
        next as nat
    } else {
        m + 1
    }
}

/// The next free ids that a valid document gets.
pub open spec fn next_ids(d: Document) -> (nat, nat, nat) {
    (
        next_after(d.next_id, max_of(d.tasks@.map_values(|t: Task| t.id))),
        next_after(d.next_goal_id, max_of(goal_ids(d.goals@))),
        next_after(d.next_node_id, node_id_max(d.goals@)),
    )
}

pub proof fn lemma_max_of_bound(s: Seq<u64>, bound: u64)
    requires
        forall|i: int| 0 <= i < s.len() ==> s[i] <= bound,
    ensures
        max_of(s) <= bound,
    decreases s.len(),
{
    if s.len() > 0 {
        lemma_max_of_bound(s.drop_last(), bound);
    }
}

pub proof fn lemma_max_of_ge(s: Seq<u64>, i: int)
    requires
        0 <= i < s.len(),
    ensures
        s[i] <= max_of(s),
    decreases s.len(),
{
    if i < s.len() - 1 {
        lemma_max_of_ge(s.drop_last(), i);
        assert(s.drop_last()[i] == s[i]);
    }
}

proof fn lemma_node_id_max_ge(goals: Seq<Goal>, a: int, b: int)
    requires
        0 <= a < goals.len(),
        0 <= b < goals[a].nodes@.len(),
    ensures
        goals[a].nodes@[b].id <= node_id_max(goals),
    decreases goals.len(),
{
    if a == goals.len() - 1 {
        lemma_max_of_ge(node_ids(goals.last().nodes@), b);
    } else {
        lemma_node_id_max_ge(goals.drop_last(), a, b);
        assert(goals.drop_last()[a] == goals[a]);
    }
}

/// The next free ids that `validate` sets are above every id in use, so
/// nothing added afterwards can take an id that a task, goal or step has.
pub proof fn law_next_ids_fresh(d: Document)
    ensures
        forall|i: int| 0 <= i < d.tasks@.len() ==> (#[trigger] d.tasks@[i]).id < next_ids(d).0,
        forall|i: int| 0 <= i < d.goals@.len() ==> (#[trigger] d.goals@[i]).id < next_ids(d).1,
        forall|a: int, b: int|
            0 <= a < d.goals@.len() && 0 <= b < d.goals@[a].nodes@.len() ==> (#[trigger] d.goals@[a].nodes@[b]).id
                < next_ids(d).2,
{
    assert forall|i: int| 0 <= i < d.tasks@.len() implies (#[trigger] d.tasks@[i]).id < next_ids(d).0 by {
        let ids = d.tasks@.map_values(|t: Task| t.id);
        lemma_max_of_ge(ids, i);
        assert(ids[i] == d.tasks@[i].id);
    }
    assert forall|i: int| 0 <= i < d.goals@.len() implies (#[trigger] d.goals@[i]).id < next_ids(d).1 by {
        lemma_max_of_ge(goal_ids(d.goals@), i);
        assert(goal_ids(d.goals@)[i] == d.goals@[i].id);
    }
    assert forall|a: int, b: int|
        0 <= a < d.goals@.len() && 0 <= b < d.goals@[a].nodes@.len() implies (#[trigger] d.goals@[a].nodes@[b]).id
            < next_ids(d).2 by {
        lemma_node_id_max_ge(d.goals@, a, b);
    }
}

fn max_id(ids: &Vec<u64>) -> (m: u64)
    ensures
        m == max_of(ids@),
{
    let mut m: u64 = 0;
    for i in 0..ids.len()
        invariant
            m == max_of(ids@.take(i as int)),
    {
        assert(ids@.take(i + 1).drop_last() == ids@.take(i as int));
        if ids[i] > m {
            m = ids[i];
        }
    }
    assert(ids@.take(ids.len() as int) == ids@);
    m
}

fn task_id_max(tasks: &Vec<Task>) -> (m: u64)
    ensures
        m == max_of(tasks@.map_values(|t: Task| t.id)),
{
    let mut ids: Vec<u64> = Vec::new();
    for i in 0..tasks.len()
        invariant
            ids@ == tasks@.take(i as int).map_values(|t: Task| t.id),
    {
        ids.push(tasks[i].id);
        assert(tasks@.take(i + 1).map_values(|t: Task| t.id) == ids@);
    }
    assert(tasks@.take(tasks.len() as int) == tasks@);
    max_id(&ids)
}

fn goal_id_max(goals: &Vec<Goal>) -> (m: u64)
    ensures
        m == max_of(goal_ids(goals@)),
{
    let mut ids: Vec<u64> = Vec::new();
    for i in 0..goals.len()
        invariant
            ids@ == goal_ids(goals@.take(i as int)),
    {
        ids.push(goals[i].id);
        assert(goal_ids(goals@.take(i + 1)) == ids@);
    }
    assert(goals@.take(goals.len() as int) == goals@);
    max_id(&ids)
}

fn node_id_max_of(goals: &Vec<Goal>) -> (m: u64)
    ensures
        m == node_id_max(goals@),
{
    let mut m: u64 = 0;
    for i in 0..goals.len()
        invariant
            m == node_id_max(goals@.take(i as int)),
    {
        let mut ids: Vec<u64> = Vec::new();
        let count = goals[i].nodes.len();
        for j in 0..count
            invariant
                count == goals@[i as int].nodes@.len(),
                0 <= i < goals@.len(),
                ids@ == node_ids(goals@[i as int].nodes@.take(j as int)),
        {
            ids.push(goals[i].nodes[j].id);
            assert(node_ids(goals@[i as int].nodes@.take(j + 1)) == ids@);
        }
        assert(goals@[i as int].nodes@.take(goals@[i as int].nodes@.len() as int) == goals@[i as int].nodes@);
        let here = max_id(&ids);
        assert(goals@.take(i + 1).drop_last() == goals@.take(i as int));
        if here > m {
            m = here;
        }
    }
    assert(goals@.take(goals.len() as int) == goals@);
    m
}


/// `ids` without ids that `known` lacks and without repeats.
pub open spec fn keep_known_once(ids: Seq<u64>, known: Seq<u64>) -> Seq<u64>
    decreases ids.len(),
{
    if ids.len() == 0 {
        ids
    } else {
        let rest = keep_known_once(ids.drop_last(), known);
        if known.contains(ids.last()) && !rest.contains(ids.last()) {
            rest.push(ids.last())
        } else {
            rest
        }
    }
}

/// The settings as `validate` stores them, for a document whose goals have the ids `known`.
pub open spec fn settings_normalized(old: Settings, new: Settings, known: Seq<u64>) -> bool {
    &&& new == (Settings {
        width: clamp(old.width, 260, 1000),
        height: clamp(old.height, 240, 1200),
        opacity: if old.opacity < 51 {
            51
        } else {
            old.opacity
        },
        goal_node_shape: if 0 <= old.goal_node_shape <= 2 {
            old.goal_node_shape
        } else {
            0
        },
        collapsed_goal_ids: new.collapsed_goal_ids,
        draft: new.draft,
        ..old
    })
    &&& new.collapsed_goal_ids@ == keep_known_once(old.collapsed_goal_ids@, known)
    &&& new.draft@ == prefix(remove_nul(old.draft@), 10000)
}

fn normalize_settings(s: &mut Settings, goals: &Vec<Goal>)
    ensures
        settings_normalized(*old(s), *final(s), goal_ids(goals@)),
{
    s.width = clamp_i32(s.width, 260, 1000);
    s.height = clamp_i32(s.height, 240, 1200);
    if s.opacity < 51 {
        s.opacity = 51;
    }
    if !(0 <= s.goal_node_shape && s.goal_node_shape <= 2) {
        s.goal_node_shape = 0;
    }
    let mut known: std::collections::HashSet<u64> = std::collections::HashSet::new();
    for i in 0..goals.len()
        invariant
            forall|x: u64| known@.contains(x) <==> goal_ids(goals@.take(i as int)).contains(x),
    {
        known.insert(goals[i].id);
        proof {
            let t = goal_ids(goals@.take(i + 1));
            assert(t == goal_ids(goals@.take(i as int)).push(goals@[i as int].id));
            assert forall|x: u64| known@.contains(x) <==> t.contains(x) by {
                lemma_push_contains(goal_ids(goals@.take(i as int)), goals@[i as int].id, x);
            }
        }
    }
    assert(goals@.take(goals@.len() as int) == goals@);
    let ids = &s.collapsed_goal_ids;
    let mut kept: Vec<u64> = Vec::new();
    let mut seen: std::collections::HashSet<u64> = std::collections::HashSet::new();
    for i in 0..ids.len()
        invariant
            forall|x: u64| known@.contains(x) <==> goal_ids(goals@).contains(x),
            kept@ == keep_known_once(ids@.take(i as int), goal_ids(goals@)),
            forall|x: u64| seen@.contains(x) <==> kept@.contains(x),
    {
        let id = ids[i];
        assert(ids@.take(i + 1).drop_last() == ids@.take(i as int));
        if known.contains(&id) && !seen.contains(&id) {
            let ghost kept0 = kept@;
            let ghost seen0 = seen@;
            seen.insert(id);
            kept.push(id);
            proof {
                assert forall|x: u64| seen@.contains(x) <==> kept@.contains(x) by {
                    lemma_push_contains(kept0, id, x);
                    assert(seen0.contains(x) <==> kept0.contains(x));
                }
            }
        }
    }
    assert(ids@.take(ids@.len() as int) == ids@);
    let draft = clean_text(s.draft.as_str(), 10000);
    s.collapsed_goal_ids = kept;
    s.draft = draft;
}


proof fn lemma_push_contains(s: Seq<u64>, v: u64, x: u64)
    ensures
        s.push(v).contains(x) <==> (s.contains(x) || x == v),
{
    if x == v {
        assert(s.push(v)[s.len() as int] == x);
    }
    if s.contains(x) {
        let k = choose|k: int| 0 <= k < s.len() && s[k] == x;
        assert(s.push(v)[k] == x);
    }
    if s.push(v).contains(x) && x != v {
        let k = choose|k: int| 0 <= k < s.push(v).len() && s.push(v)[k] == x;
        assert(s[k] == x);
    }
}


/// A document whose version, tasks and list sizes pass, so that its notes are checked.
pub open spec fn reaches_notes(d: Document) -> bool {
    &&& d.version == 1 || d.version == 2
    &&& d.tasks@.len() <= 100_000
    &&& tasks_error(d.tasks@, 0) is None
    &&& d.notes@.len() <= 200 && d.notifications@.len() <= 100_000
}

/// A document whose notes and goal count pass too, so that its goals are cleaned and checked.
pub open spec fn reaches_goals(d: Document) -> bool {
    &&& reaches_notes(d)
    &&& !exists|i: int| 0 <= i < d.notes@.len() && note_bad(d.notes@, i)
    &&& d.goals@.len() <= 100
}

/// The first complaint about a document before its goals' prerequisites are checked.
pub open spec fn early_error(d: Document) -> Option<Seq<char>> {
    if d.version != 1 && d.version != 2 {
        Some("不支持的数据版本 "@ + decimal(d.version as nat) + "，请使用对应版本的 LiteList"@)
    } else if d.tasks@.len() > 100_000 {
        Some("任务数量超过安全读取上限"@)
    } else if tasks_error(d.tasks@, 0) is Some {
        tasks_error(d.tasks@, 0)
    } else if d.notes@.len() > 200 || d.notifications@.len() > 100_000 {
        Some("便签或通知数量超出上限"@)
    } else if exists|i: int| 0 <= i < d.notes@.len() && note_bad(d.notes@, i) {
        Some("便签数据无效"@)
    } else if d.goals@.len() > 100 {
        Some("大目标数量超过 100 个上限"@)
    } else {
        goals_error(d.goals@, 0)
    }
}

proof fn lemma_deps_ok(goals: Seq<Goal>, i: int)
    requires
        0 <= i,
        deps_error(goals, i) is None,
    ensures
        forall|a: int| i <= a < goals.len() ==> !refs_bad(#[trigger] goals[a]) && acyclic(goals[a]),
    decreases goals.len() - i,
{
    if i < goals.len() {
        lemma_deps_ok(goals, i + 1);
    }
}

proof fn lemma_tasks_ok(tasks: Seq<Task>, i: int)
    requires
        0 <= i,
        tasks_error(tasks, i) is None,
    ensures
        forall|j: int| i <= j < tasks.len() ==> !task_bad(tasks, j),
    decreases tasks.len() - i,
{
    if i < tasks.len() {
        lemma_tasks_ok(tasks, i + 1);
    }
}

proof fn lemma_goals_ok(goals: Seq<Goal>, i: int)
    requires
        0 <= i,
        goals_error(goals, i) is None,
    ensures
        forall|a: int| i <= a < goals.len() ==> !goal_bad(goals, a),
        forall|a: int, b: int| i <= a < goals.len() && 0 <= b < goals[a].nodes@.len() ==> !node_bad(goals, a, b),
    decreases goals.len() - i,
{
    if i < goals.len() {
        lemma_goals_ok(goals, i + 1);
        assert forall|b: int| 0 <= b < goals[i].nodes@.len() implies !node_bad(goals, i, b) by {
            if node_bad(goals, i, b) {
                assert(goal_stage_error(goals, i) is Some);
            }
        }
    }
}

proof fn lemma_node_id_max_bound(goals: Seq<Goal>, bound: u64)
    requires
        forall|a: int, b: int| 0 <= a < goals.len() && 0 <= b < goals[a].nodes@.len() ==> (#[trigger] goals[a].nodes@[b]).id <= bound,
    ensures
        node_id_max(goals) <= bound,
    decreases goals.len(),
{
    if goals.len() > 0 {
        let last = goals.len() - 1;
        assert forall|b: int| 0 <= b < node_ids(goals.last().nodes@).len() implies node_ids(goals.last().nodes@)[b] <= bound by {
            assert(goals[last].nodes@[b].id <= bound);
        }
        lemma_max_of_bound(node_ids(goals.last().nodes@), bound);
        assert forall|a: int, b: int| 0 <= a < goals.drop_last().len() && 0 <= b < goals.drop_last()[a].nodes@.len() implies (#[trigger] goals.drop_last()[a].nodes@[b]).id <= bound by {
            assert(goals[a].nodes@[b].id <= bound);
        }
        lemma_node_id_max_bound(goals.drop_last(), bound);
    }
}

impl Document {
    /// Checks a document read from disk or imported, and brings it to the
    /// current form: version 2, sizes and text within limits, prerequisites
    /// without repeats or zeros, next free ids above every id in use.
    pub fn validate(&mut self) -> (r: Result<(), String>)
        ensures
            match early_error(*old(self)) {
                Some(msg) => {
                    &&& r matches Err(e) && e@ == msg
                    &&& final(self).version == (if old(self).version == 1 || old(self).version == 2 {
                        2
                    } else {
                        old(self).version
                    })
                    &&& final(self).tasks == old(self).tasks
                    &&& final(self).notifications == old(self).notifications
                    &&& final(self).settings == old(self).settings
                    &&& final(self).next_id == old(self).next_id
                    &&& final(self).next_goal_id == old(self).next_goal_id
                    &&& final(self).next_node_id == old(self).next_node_id
                    &&& if reaches_notes(*old(self)) {
                        if exists|i: int| 0 <= i < old(self).notes@.len() && note_bad(old(self).notes@, i) {
                            notes_cleaned_until_error(old(self).notes@, final(self).notes@)
                        } else {
                            &&& final(self).notes@.len() == old(self).notes@.len()
                            &&& forall|i: int| 0 <= i < old(self).notes@.len() ==> note_clamped(old(self).notes@[i], #[trigger] final(self).notes@[i])
                        }
                    } else {
                        final(self).notes == old(self).notes
                    }
                    &&& if reaches_goals(*old(self)) {
                        goals_cleaned_until_error(old(self).goals@, final(self).goals@)
                    } else {
                        final(self).goals == old(self).goals
                    }
                },
                None => {
                    &&& final(self).version == 2
                    &&& final(self).tasks == old(self).tasks
                    &&& final(self).notifications == old(self).notifications
                    &&& final(self).notes@.len() == old(self).notes@.len()
                    &&& forall|i: int| 0 <= i < old(self).notes@.len() ==> note_clamped(old(self).notes@[i], #[trigger] final(self).notes@[i])
                    &&& final(self).goals@.len() == old(self).goals@.len()
                    &&& forall|i: int| 0 <= i < old(self).goals@.len() ==> goal_normalized(old(self).goals@[i], #[trigger] final(self).goals@[i])
                    &&& match deps_error(final(self).goals@, 0) {
                        Some(msg) => {
                            &&& r matches Err(e) && e@ == msg
                            &&& final(self).settings == old(self).settings
                            &&& final(self).next_id == old(self).next_id
                            &&& final(self).next_goal_id == old(self).next_goal_id
                            &&& final(self).next_node_id == old(self).next_node_id
                        },
                        None => {
                            &&& final(self).next_id == next_after(old(self).next_id, max_of(old(self).tasks@.map_values(|t: Task| t.id)))
                            &&& final(self).next_goal_id == next_after(old(self).next_goal_id, max_of(goal_ids(final(self).goals@)))
                            &&& final(self).next_node_id == next_after(old(self).next_node_id, node_id_max(final(self).goals@))
                            &&& if final(self).next_id > MAX_JSON_ID || final(self).next_goal_id > MAX_JSON_ID
                                || final(self).next_node_id > MAX_JSON_ID {
                                &&& r matches Err(e) && e@ == "ID 超出跨平台 JSON 安全范围"@
                                &&& final(self).settings == old(self).settings
                            } else {
                                &&& r is Ok
                                &&& settings_normalized(old(self).settings, final(self).settings, goal_ids(final(self).goals@))
                                &&& goals_structured(*final(self))
                                &&& ids_below(final(self).tasks@, final(self).next_id)
                            }
                        },
                    }
                },
            },
    {
        if self.version != 1 && self.version != 2 {
            let mut msg = lit("不支持的数据版本 ");
            push_decimal(&mut msg, self.version as u64);
            append(&mut msg, "，请使用对应版本的 LiteList");
            return Err(msg);
        }
        self.version = 2;
        if self.tasks.len() > 100_000 {
            return Err(lit("任务数量超过安全读取上限"));
        }
        match check_tasks(&self.tasks) {
            Err(e) => return Err(e),
            Ok(()) => {},
        }
        if self.notes.len() > 200 || self.notifications.len() > 100_000 {
            return Err(lit("便签或通知数量超出上限"));
        }
        match check_notes(&mut self.notes) {
            Err(e) => {
                proof {
                    let i = choose|i: int| 0 <= i < old(self).notes@.len() && note_bad(old(self).notes@, i);
                }
                return Err(e);
            },
            Ok(()) => {},
        }
        if self.goals.len() > 100 {
            return Err(lit("大目标数量超过 100 个上限"));
        }
        match normalize_goals(&mut self.goals) {
            Err(e) => return Err(e),
            Ok(()) => {},
        }
        match check_dependencies(&self.goals) {
            Err(e) => return Err(e),
            Ok(()) => {},
        }
        proof {
            let tasks = old(self).tasks@;
            lemma_tasks_ok(tasks, 0);
            let ids = tasks.map_values(|t: Task| t.id);
            assert forall|i: int| 0 <= i < ids.len() implies #[trigger] ids[i] <= MAX_JSON_ID by {
                assert(!task_bad(tasks, i));
            }
            lemma_max_of_bound(ids, MAX_JSON_ID);
            let og = old(self).goals@;
            lemma_goals_ok(og, 0);
            let gids = goal_ids(self.goals@);
            assert forall|i: int| 0 <= i < gids.len() implies #[trigger] gids[i] <= MAX_JSON_ID by {
                assert(!goal_bad(og, i));
                assert(goal_normalized(og[i], self.goals@[i]));
            }
            lemma_max_of_bound(gids, MAX_JSON_ID);
            assert forall|a: int, b: int| 0 <= a < self.goals@.len() && 0 <= b < self.goals@[a].nodes@.len() implies (#[trigger] self.goals@[a].nodes@[b]).id <= MAX_JSON_ID by {
                assert(goal_normalized(og[a], self.goals@[a]));
                assert(node_normalized(og[a].nodes@[b], self.goals@[a].nodes@[b]));
                assert(!node_bad(og, a, b));
            }
            lemma_node_id_max_bound(self.goals@, MAX_JSON_ID);
        }
        let task_max = task_id_max(&self.tasks);
        if self.next_id <= task_max {
            self.next_id = task_max + 1;
        }
        let goal_max = goal_id_max(&self.goals);
        if self.next_goal_id <= goal_max {
            self.next_goal_id = goal_max + 1;
        }
        let node_max = node_id_max_of(&self.goals);
        if self.next_node_id <= node_max {
            self.next_node_id = node_max + 1;
        }
        if self.next_id > MAX_JSON_ID || self.next_goal_id > MAX_JSON_ID || self.next_node_id > MAX_JSON_ID {
            return Err(lit("ID 超出跨平台 JSON 安全范围"));
        }
        normalize_settings(&mut self.settings, &self.goals);
        proof {
            let og = old(self).goals@;
            let gs = self.goals@;
            lemma_goals_ok(og, 0);
            lemma_deps_ok(gs, 0);
            assert forall|i: int| 0 <= i < gs.len() implies {
                &&& unique_steps(#[trigger] gs[i])
                &&& refs_exist(gs[i])
                &&& acyclic(gs[i])
            } by {
                assert(goal_normalized(og[i], gs[i]));
                assert forall|a: int, b: int| 0 <= a < b < gs[i].nodes@.len() implies gs[i].nodes@[a].id != gs[i].nodes@[b].id by {
                    assert(node_normalized(og[i].nodes@[a], gs[i].nodes@[a]));
                    assert(node_normalized(og[i].nodes@[b], gs[i].nodes@[b]));
                    assert(!node_bad(og, i, b));
                    if gs[i].nodes@[a].id == gs[i].nodes@[b].id {
                        assert(og[i].nodes@[a].id == og[i].nodes@[b].id);
                        assert(node_seen(og, i, b));
                    }
                }
                assert(!refs_bad(gs[i]));
                assert forall|j: int, k: int| 0 <= j < gs[i].nodes@.len() && 0 <= k < gs[i].nodes@[j].requires@.len()
                    implies has_node(gs[i], #[trigger] gs[i].nodes@[j].requires@[k]) by {
                    if !has_node(gs[i], gs[i].nodes@[j].requires@[k]) {
                        assert(refs_bad(gs[i]));
                    }
                }
            }
            law_next_ids_fresh(*self);
            assert(next_ids(*self).2 == node_id_max(gs) + 1 || next_ids(*self).2 == self.next_node_id);
            assert(next_ids(*self).0 == self.next_id);
        }
        Ok(())
    }
}

} // verus!
