//! Goals as the document holds them: adding, editing, deleting and completing steps.
use vstd::prelude::*;

use super::goal::{all_done, has_node, node_ids, node_index, node_of, synced_completion, unlocked};
use super::ids::{contains_id, first_pos, lemma_first_pos, lemma_first_pos_at};
use super::soundness::{goals_consistent, lemma_remove_consistent, lemma_goal_pushed_consistent, lemma_goal_removed_consistent, lemma_relabel_consistent, lemma_goal_replaced_consistent, lemma_push_consistent, lemma_toggle_consistent, goals_sound, lemma_dedup_from, lemma_empty_sound, lemma_goal_pushed, lemma_goal_removed, lemma_goal_replaced, lemma_push_sound, lemma_relabel_sound, lemma_remove_sound, lemma_toggle_sound, same_links};
use super::tasks::now;
use super::{Document, Goal, GoalNode, MAX_JSON_ID};
use crate::text::{clean_line, lit, prefix, remove_nul, trim};

verus! {

/// The ids of `goals`, in order.
pub open spec fn goal_ids(goals: Seq<Goal>) -> Seq<u64> {
    goals.map_values(|g: Goal| g.id)
}

/// Position of the first goal with this id.
pub open spec fn goal_pos(d: Document, id: u64) -> nat {
    first_pos(goal_ids(d.goals@), id)
}

pub open spec fn has_goal(d: Document, id: u64) -> bool {
    goal_pos(d, id) < d.goals@.len()
}

/// A title as stored: NULs removed, trimmed, at most 200 characters.
pub open spec fn clean_title(s: Seq<char>) -> Seq<char> {
    prefix(trim(remove_nul(s)), 200)
}

/// A description as stored: NULs removed, trimmed, at most 2000 characters.
pub open spec fn clean_description(s: Seq<char>) -> Seq<char> {
    prefix(trim(remove_nul(s)), 2000)
}

/// Shapes outside -1..=2 fall back to -1 (the platform default).
pub open spec fn normal_shape(shape: i8) -> i8 {
    if -1 <= shape <= 2 {
        shape
    } else {
        -1i8
    }
}

/// `s` with later repeats of an id dropped.
pub open spec fn dedup(s: Seq<u64>) -> Seq<u64>
    decreases s.len(),
{
    if s.len() == 0 {
        s
    } else {
        let rest = dedup(s.drop_last());
        if rest.contains(s.last()) {
            rest
        } else {
            rest.push(s.last())
        }
    }
}

/// How many steps all goals hold together.
pub open spec fn node_total(goals: Seq<Goal>) -> nat
    decreases goals.len(),
{
    if goals.len() == 0 {
        0
    } else {
        node_total(goals.drop_last()) + goals.last().nodes@.len()
    }
}

/// Why `add_goal` refuses, or `None` when it accepts.
pub open spec fn add_goal_error(d: Document, title: Seq<char>) -> Option<Seq<char>> {
    if d.goals@.len() >= 100 {
        Some("大目标已达到 100 个上限"@)
    } else if clean_title(title).len() == 0 {
        Some("请输入大目标名称"@)
    } else if d.next_goal_id == 0 || d.next_goal_id >= MAX_JSON_ID {
        Some("大目标 ID 溢出"@)
    } else {
        None
    }
}

/// Why `add_goal_node` refuses, or `None` when it accepts.
pub open spec fn add_node_error(d: Document, goal_id: u64, title: Seq<char>, reqs: Seq<u64>) -> Option<Seq<char>> {
    if node_total(d.goals@) >= 2000 {
        Some("小目标已达到 2000 个上限"@)
    } else if clean_title(title).len() == 0 {
        Some("请输入小目标名称"@)
    } else if !has_goal(d, goal_id) {
        Some("找不到大目标"@)
    } else if exists|k: int| 0 <= k < reqs.len() && !has_node(d.goals@[goal_pos(d, goal_id) as int], #[trigger] reqs[k]) {
        Some("小目标包含不存在的前置条件"@)
    } else if d.next_node_id == 0 || d.next_node_id >= MAX_JSON_ID {
        Some("小目标 ID 溢出"@)
    } else {
        None
    }
}

/// Why `toggle_goal_node` refuses, or `None` when it accepts.
pub open spec fn toggle_error(d: Document, goal_id: u64, node_id: u64) -> Option<Seq<char>> {
    if !has_goal(d, goal_id) {
        Some("找不到大目标"@)
    } else {
        let g = d.goals@[goal_pos(d, goal_id) as int];
        if !has_node(g, node_id) {
            Some("找不到小目标"@)
        } else if node_of(g, node_id).completed_at is None && !unlocked(g, node_id) {
            Some("请先完成前置小目标"@)
        } else if node_of(g, node_id).completed_at is Some && exists|j: int|
            0 <= j < g.nodes@.len() && (#[trigger] g.nodes@[j]).completed_at is Some
                && g.nodes@[j].requires@.contains(node_id) {
            Some("已有完成节点依赖它，暂时不能撤回"@)
        } else {
            None
        }
    }
}


/// A completion time that `sync_completion` may leave on `g` at some moment:
/// kept when all steps are done and one was set, a new one when none was
/// set, none when a step is open.
pub open spec fn completion_follows(g: Goal, c: Option<u64>) -> bool {
    if all_done(g) {
        &&& c is Some
        &&& g.completed_at is Some ==> c == g.completed_at
    } else {
        c is None
    }
}

/// Why `delete_goal_node` refuses, or `None` when it accepts.
pub open spec fn delete_node_error(d: Document, goal_id: u64, node_id: u64) -> Option<Seq<char>> {
    if !has_goal(d, goal_id) {
        Some("找不到大目标"@)
    } else {
        let g = d.goals@[goal_pos(d, goal_id) as int];
        if exists|j: int| 0 <= j < g.nodes@.len() && (#[trigger] g.nodes@[j]).requires@.contains(node_id) {
            Some("该节点仍是其他小目标的前置条件，无法删除"@)
        } else if !has_node(g, node_id) {
            Some("找不到小目标"@)
        } else {
            None
        }
    }
}

pub proof fn lemma_node_total_prefix(goals: Seq<Goal>, i: int)
    requires
        0 <= i <= goals.len(),
    ensures
        node_total(goals.take(i)) <= node_total(goals),
    decreases goals.len(),
{
    if i < goals.len() {
        assert(goals.drop_last().take(i) == goals.take(i));
        lemma_node_total_prefix(goals.drop_last(), i);
    } else {
        assert(goals.take(i) == goals);
    }
}

/// `v` with later repeats dropped.
pub fn dedup_ids(v: &Vec<u64>) -> (r: Vec<u64>)
    ensures
        r@ == dedup(v@),
{
    let mut r: Vec<u64> = Vec::new();
    for i in 0..v.len()
        invariant
            r@ == dedup(v@.take(i as int)),
    {
        assert(v@.take(i + 1).drop_last() == v@.take(i as int));
        if !contains_id(&r, v[i]) {
            r.push(v[i]);
        }
    }
    assert(v@.take(v.len() as int) == v@);
    r
}

/// Whether all goals together hold 2000 steps or more.
fn node_limit_reached(goals: &Vec<Goal>) -> (r: bool)
    ensures
        r == (node_total(goals@) >= 2000),
{
    let mut total: usize = 0;
    let mut i: usize = 0;
    while i < goals.len() && total < 2000
        invariant
            i <= goals@.len(),
            total < 2000 ==> total == node_total(goals@.take(i as int)),
            total >= 2000 ==> node_total(goals@.take(i as int)) >= 2000,
        decreases goals.len() - i,
    {
        assert(goals@.take(i + 1).drop_last() == goals@.take(i as int));
        let n = goals[i].nodes.len();
        if n >= 2000 - total {
            total = 2000;
        } else {
            total = total + n;
        }
        i = i + 1;
    }
    proof {
        lemma_node_total_prefix(goals@, i as int);
        if i == goals@.len() {
            assert(goals@.take(i as int) == goals@);
        }
    }
    total >= 2000
}

/// Position of the first goal with this id, found by walking the goals.
pub fn goal_index(goals: &Vec<Goal>, id: u64) -> (p: usize)
    ensures
        p == first_pos(goal_ids(goals@), id),
        p <= goals@.len(),
{
    let mut i: usize = 0;
    while i < goals.len()
        invariant
            i <= goals@.len(),
            forall|j: int| 0 <= j < i ==> goals@[j].id != id,
        decreases goals.len() - i,
    {
        if goals[i].id == id {
            proof {
                assert forall|j: int| 0 <= j < i implies goal_ids(goals@)[j] != id by {}
                lemma_first_pos_at(goal_ids(goals@), id, i as int);
            }
            return i;
        }
        i = i + 1;
    }
    proof {
        assert forall|j: int| 0 <= j < i implies goal_ids(goals@)[j] != id by {}
        lemma_first_pos_at(goal_ids(goals@), id, i as int);
    }
    i
}

impl Document {
    pub fn find_goal(&self, id: u64) -> (r: Option<&Goal>)
        ensures
            match r {
                Some(g) => has_goal(*self, id) && *g == self.goals@[goal_pos(*self, id) as int],
                None => !has_goal(*self, id),
            },
    {
        let p = goal_index(&self.goals, id);
        if p < self.goals.len() {
            Some(&self.goals[p])
        } else {
            None
        }
    }

    /// The ids of `ids` that name a goal of the document, in order.
    pub fn known_goals(&self, ids: &Vec<u64>) -> (r: Vec<u64>)
        ensures
            r@ == ids@.filter(|id: u64| has_goal(*self, id)),
    {
        let mut r: Vec<u64> = Vec::new();
        for i in 0..ids.len()
            invariant
                r@ == ids@.take(i as int).filter(|id: u64| has_goal(*self, id)),
        {
            proof {
                let t = ids@.take(i + 1);
                assert(t.drop_last() == ids@.take(i as int));
                assert(t.last() == ids@[i as int]);
                reveal_with_fuel(Seq::filter, 1);
            }
            let p = goal_index(&self.goals, ids[i]);
            if p < self.goals.len() {
                r.push(ids[i]);
            }
        }
        assert(ids@.take(ids@.len() as int) == ids@);
        r
    }

    /// Adds an empty goal and returns its id.
    pub fn add_goal(&mut self, title: &str, description: &str) -> (r: Result<u64, String>)
        ensures
            match add_goal_error(*old(self), title@) {
                Some(msg) => r matches Err(e) && e@ == msg && *final(self) == *old(self),
                None => {
                    &&& r == Ok::<u64, String>(old(self).next_goal_id)
                    &&& *final(self) == (Document {
                        next_goal_id: (old(self).next_goal_id + 1) as u64,
                        goals: final(self).goals,
                        ..*old(self)
                    })
                    &&& final(self).goals@.drop_last() == old(self).goals@
                    &&& final(self).goals@.len() == old(self).goals@.len() + 1
                    &&& final(self).goals@.last().id == old(self).next_goal_id
                    &&& final(self).goals@.last().title@ == clean_title(title@)
                    &&& final(self).goals@.last().description@ == clean_description(description@)
                    &&& final(self).goals@.last().completed_at is None
                    &&& final(self).goals@.last().nodes@.len() == 0
                },
            },
            goals_sound(*old(self)) ==> goals_sound(*final(self)),
            goals_consistent(*old(self)) ==> goals_consistent(*final(self)),
    {
        if self.goals.len() >= 100 {
            return Err(lit("大目标已达到 100 个上限"));
        }
        let title = clean_line(title, 200);
        if title.as_str().is_empty() {
            return Err(lit("请输入大目标名称"));
        }
        let id = self.next_goal_id;
        if id == 0 || id >= MAX_JSON_ID {
            return Err(lit("大目标 ID 溢出"));
        }
        self.next_goal_id = id + 1;
        let description = clean_line(description, 2000);
        let goal = Goal {
            id,
            title,
            description,
            created_at: now(),
            completed_at: None,
            nodes: Vec::new(),
        };
        self.goals.push(goal);
        assert(self.goals@.drop_last() == old(self).goals@);
        proof {
            if goals_sound(*old(self)) {
                lemma_empty_sound(self.goals@.last());
                assert(self.goals@ == old(self).goals@.push(self.goals@.last()));
                lemma_goal_pushed(*old(self), *self, self.goals@.last());
            }
            if goals_consistent(*old(self)) {
                assert(self.goals@ == old(self).goals@.push(self.goals@.last()));
                lemma_goal_pushed_consistent(*old(self), *self, self.goals@.last());
            }
        }
        Ok(id)
    }

    /// Renames a goal and replaces its description.
    pub fn update_goal(&mut self, goal_id: u64, title: &str, description: &str) -> (r: Result<(), String>)
        ensures
            clean_title(title@).len() == 0 ==> (r matches Err(e) && e@ == "请输入大目标名称"@ && *final(self) == *old(self)),
            clean_title(title@).len() > 0 && !has_goal(*old(self), goal_id) ==> (r matches Err(e) && e@ == "找不到大目标"@ && *final(self) == *old(self)),
            clean_title(title@).len() > 0 && has_goal(*old(self), goal_id) ==> {
                let p = goal_pos(*old(self), goal_id) as int;
                let g = final(self).goals@[p];
                &&& r is Ok
                &&& *final(self) == (Document { goals: final(self).goals, ..*old(self) })
                &&& final(self).goals@ == old(self).goals@.update(p, g)
                &&& g == (Goal { title: g.title, description: g.description, ..old(self).goals@[p] })
                &&& g.title@ == clean_title(title@)
                &&& g.description@ == clean_description(description@)
            },
            goals_sound(*old(self)) ==> goals_sound(*final(self)),
            goals_consistent(*old(self)) ==> goals_consistent(*final(self)),
    {
        let title = clean_line(title, 200);
        if title.as_str().is_empty() {
            return Err(lit("请输入大目标名称"));
        }
        let p = goal_index(&self.goals, goal_id);
        if p >= self.goals.len() {
            return Err(lit("找不到大目标"));
        }
        let description = clean_line(description, 2000);
        self.goals[p].title = title;
        self.goals[p].description = description;
        proof {
            if goals_sound(*old(self)) {
                let og = old(self).goals@[p as int];
                let g = self.goals@[p as int];
                assert(goals_sound(*old(self)) ==> super::soundness::goal_sound(og));
                lemma_relabel_sound(og, g);
                assert(self.goals@ == old(self).goals@.update(p as int, g));
                lemma_goal_replaced(*old(self), *self, p as int, g);
            }
            if goals_consistent(*old(self)) {
                let og = old(self).goals@[p as int];
                let g = self.goals@[p as int];
                assert(super::soundness::goal_consistent(og));
                lemma_relabel_consistent(og, g);
                assert(self.goals@ == old(self).goals@.update(p as int, g));
                lemma_goal_replaced_consistent(*old(self), *self, p as int, g);
            }
        }
        Ok(())
    }

    /// Removes a goal with all its steps.
    pub fn delete_goal(&mut self, goal_id: u64) -> (r: Result<(), String>)
        ensures
            !has_goal(*old(self), goal_id) ==> (r matches Err(e) && e@ == "找不到大目标"@ && *final(self) == *old(self)),
            has_goal(*old(self), goal_id) ==> {
                &&& r is Ok
                &&& *final(self) == (Document { goals: final(self).goals, ..*old(self) })
                &&& final(self).goals@ == old(self).goals@.remove(goal_pos(*old(self), goal_id) as int)
            },
            goals_sound(*old(self)) ==> goals_sound(*final(self)),
            goals_consistent(*old(self)) ==> goals_consistent(*final(self)),
    {
        let p = goal_index(&self.goals, goal_id);
        if p >= self.goals.len() {
            return Err(lit("找不到大目标"));
        }
        self.goals.remove(p);
        proof {
            if goals_sound(*old(self)) {
                lemma_goal_removed(*old(self), *self, p as int);
            }
            if goals_consistent(*old(self)) {
                lemma_goal_removed_consistent(*old(self), *self, p as int);
            }
        }
        Ok(())
    }

    /// Adds a step to a goal and returns its id. Repeated prerequisites are
    /// kept once; all of them must be steps of that goal.
    pub fn add_goal_node(
        &mut self,
        goal_id: u64,
        title: &str,
        description: &str,
        prerequisites: Vec<u64>,
        shape: i8,
    ) -> (r: Result<u64, String>)
        ensures
            match add_node_error(*old(self), goal_id, title@, prerequisites@) {
                Some(msg) => r matches Err(e) && e@ == msg && *final(self) == *old(self),
                None => {
                    let p = goal_pos(*old(self), goal_id) as int;
                    let og = old(self).goals@[p];
                    let g = final(self).goals@[p];
                    let n = g.nodes@.last();
                    &&& r == Ok::<u64, String>(old(self).next_node_id)
                    &&& *final(self) == (Document {
                        next_node_id: (old(self).next_node_id + 1) as u64,
                        goals: final(self).goals,
                        ..*old(self)
                    })
                    &&& final(self).goals@ == old(self).goals@.update(p, g)
                    &&& g == (Goal { completed_at: None, nodes: g.nodes, ..og })
                    &&& g.nodes@.len() == og.nodes@.len() + 1
                    &&& g.nodes@.drop_last() == og.nodes@
                    &&& n.id == old(self).next_node_id
                    &&& n.title@ == clean_title(title@)
                    &&& n.description@ == clean_description(description@)
                    &&& n.requires@ == dedup(prerequisites@)
                    &&& n.shape == normal_shape(shape)
                    &&& n.completed_at is None
                },
            },
            goals_sound(*old(self)) ==> goals_sound(*final(self)),
            goals_consistent(*old(self)) ==> goals_consistent(*final(self)),
    {
        if node_limit_reached(&self.goals) {
            return Err(lit("小目标已达到 2000 个上限"));
        }
        let node_title = clean_line(title, 200);
        if node_title.as_str().is_empty() {
            return Err(lit("请输入小目标名称"));
        }
        let p = goal_index(&self.goals, goal_id);
        if p >= self.goals.len() {
            return Err(lit("找不到大目标"));
        }
        let reqs = dedup_ids(&prerequisites);
        for k in 0..prerequisites.len()
            invariant
                p < self.goals@.len(),
                *self == *old(self),
                p == goal_pos(*old(self), goal_id),
                node_total(old(self).goals@) < 2000,
                clean_title(title@).len() > 0,
                forall|j: int| 0 <= j < k ==> has_node(self.goals@[p as int], #[trigger] prerequisites@[j]),
        {
            if self.goals[p].find_node(prerequisites[k]).is_none() {
                assert(!has_node(self.goals@[p as int], prerequisites@[k as int]));
                return Err(lit("小目标包含不存在的前置条件"));
            }
        }
        let id = self.next_node_id;
        if id == 0 || id >= MAX_JSON_ID {
            return Err(lit("小目标 ID 溢出"));
        }
        self.next_node_id = id + 1;
        let description = clean_line(description, 2000);
        let node = GoalNode {
            id,
            title: node_title,
            description,
            requires: reqs,
            shape: if -1 <= shape && shape <= 2 {
                shape
            } else {
                -1
            },
            created_at: now(),
            completed_at: None,
        };
        self.goals[p].nodes.push(node);
        self.goals[p].completed_at = None;
        assert(self.goals@[p as int].nodes@.drop_last() == old(self).goals@[p as int].nodes@);
        proof {
            if goals_sound(*old(self)) {
                let og = old(self).goals@[p as int];
                let g = self.goals@[p as int];
                let n = g.nodes@.last();
                assert(super::soundness::goal_sound(og));
                assert(g.nodes@ == og.nodes@.push(n));
                assert forall|i: int| 0 <= i < og.nodes@.len() implies (#[trigger] og.nodes@[i]).id != n.id by {
                    assert(old(self).goals@[p as int].nodes@[i].id < old(self).next_node_id);
                }
                lemma_dedup_from(prerequisites@);
                assert forall|k: int| 0 <= k < n.requires@.len() implies super::goal::has_node(og, #[trigger] n.requires@[k]) by {
                    assert(prerequisites@.contains(n.requires@[k]));
                    let j = choose|j: int| 0 <= j < prerequisites@.len() && prerequisites@[j] == n.requires@[k];
                }
                lemma_push_sound(og, g, n);
                assert(self.goals@ == old(self).goals@.update(p as int, g));
                assert forall|b: int| 0 <= b < g.nodes@.len() implies (#[trigger] g.nodes@[b]).id < self.next_node_id by {
                    if b < og.nodes@.len() {
                        assert(g.nodes@[b] == og.nodes@[b]);
                        assert(old(self).goals@[p as int].nodes@[b].id < old(self).next_node_id);
                    }
                }
                lemma_goal_replaced(*old(self), *self, p as int, g);
            }
            if goals_consistent(*old(self)) {
                let og = old(self).goals@[p as int];
                let g = self.goals@[p as int];
                assert(super::soundness::goal_consistent(og));
                assert(g.nodes@ == og.nodes@.push(g.nodes@.last()));
                lemma_push_consistent(og, g, g.nodes@.last());
                assert(self.goals@ == old(self).goals@.update(p as int, g));
                lemma_goal_replaced_consistent(*old(self), *self, p as int, g);
            }
        }
        Ok(id)
    }

    /// Renames a step, replaces its description and sets its shape. Its
    /// prerequisites stay as they are.
    pub fn update_goal_node(
        &mut self,
        goal_id: u64,
        node_id: u64,
        title: &str,
        description: &str,
        shape: i8,
    ) -> (r: Result<(), String>)
        ensures
            clean_title(title@).len() == 0 ==> (r matches Err(e) && e@ == "请输入小目标名称"@ && *final(self) == *old(self)),
            clean_title(title@).len() > 0 && !(has_goal(*old(self), goal_id) && has_node(old(self).goals@[goal_pos(*old(self), goal_id) as int], node_id))
                ==> (r matches Err(e) && e@ == "找不到小目标"@ && *final(self) == *old(self)),
            clean_title(title@).len() > 0 && has_goal(*old(self), goal_id) && has_node(old(self).goals@[goal_pos(*old(self), goal_id) as int], node_id) ==> {
                let p = goal_pos(*old(self), goal_id) as int;
                let og = old(self).goals@[p];
                let q = first_pos(node_ids(og.nodes@), node_id) as int;
                let g = final(self).goals@[p];
                let n = g.nodes@[q];
                &&& r is Ok
                &&& *final(self) == (Document { goals: final(self).goals, ..*old(self) })
                &&& final(self).goals@ == old(self).goals@.update(p, g)
                &&& g == (Goal { nodes: g.nodes, ..og })
                &&& g.nodes@ == og.nodes@.update(q, n)
                &&& n == (GoalNode { title: n.title, description: n.description, shape: normal_shape(shape), ..og.nodes@[q] })
                &&& n.title@ == clean_title(title@)
                &&& n.description@ == clean_description(description@)
            },
            goals_sound(*old(self)) ==> goals_sound(*final(self)),
            goals_consistent(*old(self)) ==> goals_consistent(*final(self)),
    {
        let title = clean_line(title, 200);
        if title.as_str().is_empty() {
            return Err(lit("请输入小目标名称"));
        }
        let p = goal_index(&self.goals, goal_id);
        if p >= self.goals.len() {
            return Err(lit("找不到小目标"));
        }
        let q = node_index(&self.goals[p].nodes, node_id);
        if q >= self.goals[p].nodes.len() {
            return Err(lit("找不到小目标"));
        }
        let description = clean_line(description, 2000);
        self.goals[p].nodes[q].title = title;
        self.goals[p].nodes[q].description = description;
        self.goals[p].nodes[q].shape = if -1 <= shape && shape <= 2 {
            shape
        } else {
            -1
        };
        proof {
            if goals_sound(*old(self)) {
                let og = old(self).goals@[p as int];
                let g = self.goals@[p as int];
                assert(super::soundness::goal_sound(og));
                assert forall|i: int| 0 <= i < og.nodes@.len() implies (#[trigger] g.nodes@[i]).id == og.nodes@[i].id
                    && g.nodes@[i].requires == og.nodes@[i].requires && g.nodes@[i].completed_at == og.nodes@[i].completed_at by {
                    if i != q {
                        assert(g.nodes@[i] == og.nodes@[i]);
                    }
                }
                assert(same_links(og, g));
                lemma_relabel_sound(og, g);
                assert(self.goals@ == old(self).goals@.update(p as int, g));
                assert forall|b: int| 0 <= b < g.nodes@.len() implies (#[trigger] g.nodes@[b]).id < self.next_node_id by {
                    assert(old(self).goals@[p as int].nodes@[b].id < old(self).next_node_id);
                }
                lemma_goal_replaced(*old(self), *self, p as int, g);
            }
            if goals_consistent(*old(self)) {
                let og = old(self).goals@[p as int];
                let g = self.goals@[p as int];
                assert(super::soundness::goal_consistent(og));
                assert forall|i: int| 0 <= i < og.nodes@.len() implies (#[trigger] g.nodes@[i]).id == og.nodes@[i].id
                    && g.nodes@[i].requires == og.nodes@[i].requires && g.nodes@[i].completed_at == og.nodes@[i].completed_at by {
                    if i != q {
                        assert(g.nodes@[i] == og.nodes@[i]);
                    }
                }
                assert(same_links(og, g));
                lemma_relabel_consistent(og, g);
                assert(self.goals@ == old(self).goals@.update(p as int, g));
                lemma_goal_replaced_consistent(*old(self), *self, p as int, g);
            }
        }
        Ok(())
    }

    /// Removes a step that no step of its goal requires.
    pub fn delete_goal_node(&mut self, goal_id: u64, node_id: u64) -> (r: Result<(), String>)
        ensures
            match delete_node_error(*old(self), goal_id, node_id) {
                Some(msg) => r matches Err(e) && e@ == msg && *final(self) == *old(self),
                None => {
                    let p = goal_pos(*old(self), goal_id) as int;
                    let og = old(self).goals@[p];
                    let q = first_pos(node_ids(og.nodes@), node_id) as int;
                    let g = final(self).goals@[p];
                    &&& r is Ok
                    &&& *final(self) == (Document { goals: final(self).goals, ..*old(self) })
                    &&& final(self).goals@ == old(self).goals@.update(p, g)
                    &&& g == (Goal { nodes: g.nodes, completed_at: g.completed_at, ..og })
                    &&& g.nodes@ == og.nodes@.remove(q)
                    &&& completion_follows(Goal { completed_at: og.completed_at, ..g }, g.completed_at)
                },
            },
            goals_sound(*old(self)) ==> goals_sound(*final(self)),
            goals_consistent(*old(self)) ==> goals_consistent(*final(self)),
    {
        let p = goal_index(&self.goals, goal_id);
        if p >= self.goals.len() {
            return Err(lit("找不到大目标"));
        }
        let n = self.goals[p].nodes.len();
        for j in 0..n
            invariant
                p < self.goals@.len(),
                *self == *old(self),
                p == goal_pos(*old(self), goal_id),
                n == self.goals@[p as int].nodes@.len(),
                forall|i: int| 0 <= i < j ==> !(#[trigger] self.goals@[p as int].nodes@[i]).requires@.contains(node_id),
        {
            if contains_id(&self.goals[p].nodes[j].requires, node_id) {
                assert(self.goals@[p as int].nodes@[j as int].requires@.contains(node_id));
                return Err(lit("该节点仍是其他小目标的前置条件，无法删除"));
            }
        }
        let q = node_index(&self.goals[p].nodes, node_id);
        if q >= self.goals[p].nodes.len() {
            return Err(lit("找不到小目标"));
        }
        self.goals[p].nodes.remove(q);
        let t = now();
        self.goals[p].sync_completion(t);
        proof {
            if goals_sound(*old(self)) {
                let og = old(self).goals@[p as int];
                let g = self.goals@[p as int];
                assert(super::soundness::goal_sound(og));
                lemma_first_pos(node_ids(og.nodes@), node_id);
                assert(has_node(og, node_id));
                assert forall|j: int| 0 <= j < og.nodes@.len() implies !(#[trigger] og.nodes@[j]).requires@.contains(node_id) by {
                    assert(old(self).goals@[p as int].nodes@[j] == og.nodes@[j]);
                }
                lemma_remove_sound(og, g, node_id);
                assert(super::soundness::completion_matches(g));
                assert(self.goals@ == old(self).goals@.update(p as int, g));
                assert forall|b: int| 0 <= b < g.nodes@.len() implies (#[trigger] g.nodes@[b]).id < self.next_node_id by {
                    let a = if b < q { b } else { b + 1 };
                    assert(g.nodes@[b] == og.nodes@[a]);
                    assert(old(self).goals@[p as int].nodes@[a].id < old(self).next_node_id);
                }
                lemma_goal_replaced(*old(self), *self, p as int, g);
            }
            if goals_consistent(*old(self)) {
                let og = old(self).goals@[p as int];
                let g = self.goals@[p as int];
                assert(super::soundness::goal_consistent(og));
                lemma_first_pos(node_ids(og.nodes@), node_id);
                assert(has_node(og, node_id));
                assert forall|j: int| 0 <= j < og.nodes@.len() implies !(#[trigger] og.nodes@[j]).requires@.contains(node_id) by {
                    assert(old(self).goals@[p as int].nodes@[j] == og.nodes@[j]);
                }
                lemma_remove_consistent(og, g, node_id);
                assert(self.goals@ == old(self).goals@.update(p as int, g));
                lemma_goal_replaced_consistent(*old(self), *self, p as int, g);
            }
        }
        Ok(())
    }

    /// Completes an open step whose prerequisites are all done, or reopens a
    /// completed step that no completed step requires; returns whether the
    /// step is now completed. The goal's completion follows its steps.
    pub fn toggle_goal_node(&mut self, goal_id: u64, node_id: u64, timestamp: u64) -> (r: Result<bool, String>)
        ensures
            match toggle_error(*old(self), goal_id, node_id) {
                Some(msg) => r matches Err(e) && e@ == msg && *final(self) == *old(self),
                None => {
                    let p = goal_pos(*old(self), goal_id) as int;
                    let og = old(self).goals@[p];
                    let q = first_pos(node_ids(og.nodes@), node_id) as int;
                    let completing = og.nodes@[q].completed_at is None;
                    let g = final(self).goals@[p];
                    let mid = Goal { nodes: g.nodes, ..og };
                    &&& r == Ok::<bool, String>(completing)
                    &&& *final(self) == (Document { goals: final(self).goals, ..*old(self) })
                    &&& final(self).goals@ == old(self).goals@.update(p, g)
                    &&& g == (Goal { nodes: g.nodes, completed_at: synced_completion(mid, timestamp), ..og })
                    &&& g.nodes@ == og.nodes@.update(q, GoalNode {
                        completed_at: if completing { Some(timestamp) } else { None },
                        ..og.nodes@[q]
                    })
                },
            },
            goals_sound(*old(self)) ==> goals_sound(*final(self)),
            goals_consistent(*old(self)) ==> goals_consistent(*final(self)),
    {
        let p = goal_index(&self.goals, goal_id);
        if p >= self.goals.len() {
            return Err(lit("找不到大目标"));
        }
        let q = node_index(&self.goals[p].nodes, node_id);
        if q >= self.goals[p].nodes.len() {
            return Err(lit("找不到小目标"));
        }
        let completing = self.goals[p].nodes[q].completed_at.is_none();
        if completing && !self.goals[p].node_unlocked(node_id) {
            return Err(lit("请先完成前置小目标"));
        }
        if !completing {
            let n = self.goals[p].nodes.len();
            for j in 0..n
                invariant
                    p < self.goals@.len(),
                    *self == *old(self),
                    p == goal_pos(*old(self), goal_id),
                    q == first_pos(node_ids(self.goals@[p as int].nodes@), node_id),
                    q < self.goals@[p as int].nodes@.len(),
                    !completing,
                    completing == self.goals@[p as int].nodes@[q as int].completed_at is None,
                    n == self.goals@[p as int].nodes@.len(),
                    forall|i: int| 0 <= i < j ==> !((#[trigger] self.goals@[p as int].nodes@[i]).completed_at is Some
                        && self.goals@[p as int].nodes@[i].requires@.contains(node_id)),
            {
                if self.goals[p].nodes[j].completed_at.is_some()
                    && contains_id(&self.goals[p].nodes[j].requires, node_id) {
                    assert(self.goals@[p as int].nodes@[j as int].completed_at is Some);
                    assert(self.goals@[p as int].nodes@[j as int].requires@.contains(node_id));
                    return Err(lit("已有完成节点依赖它，暂时不能撤回"));
                }
            }
        }
        self.goals[p].nodes[q].completed_at = if completing {
            Some(timestamp)
        } else {
            None
        };
        self.goals[p].sync_completion(timestamp);
        proof {
            if goals_sound(*old(self)) {
                let og = old(self).goals@[p as int];
                let g = self.goals@[p as int];
                assert(super::soundness::goal_sound(og));
                lemma_first_pos(node_ids(og.nodes@), node_id);
                assert(has_node(og, node_id));
                lemma_toggle_sound(og, g, node_id, timestamp);
                assert(self.goals@ == old(self).goals@.update(p as int, g));
                assert forall|b: int| 0 <= b < g.nodes@.len() implies (#[trigger] g.nodes@[b]).id < self.next_node_id by {
                    assert(old(self).goals@[p as int].nodes@[b].id < old(self).next_node_id);
                }
                lemma_goal_replaced(*old(self), *self, p as int, g);
            }
            if goals_consistent(*old(self)) {
                let og = old(self).goals@[p as int];
                let g = self.goals@[p as int];
                assert(super::soundness::goal_consistent(og));
                lemma_first_pos(node_ids(og.nodes@), node_id);
                assert(has_node(og, node_id));
                lemma_toggle_consistent(og, g, node_id, timestamp);
                assert(self.goals@ == old(self).goals@.update(p as int, g));
                lemma_goal_replaced_consistent(*old(self), *self, p as int, g);
            }
        }
        Ok(completing)
    }
}

/// The rules for toggling a step, stated from the steps themselves: a
/// completed step can be reopened whenever every step that requires it is
/// open (an open dependent never blocks), and is refused as soon as a
/// completed step requires it; an open step can be completed whenever every
/// step it requires exists and is completed.
pub proof fn law_toggle_rules(d: Document, goal_id: u64, node_id: u64)
    requires
        has_goal(d, goal_id),
        has_node(d.goals@[goal_pos(d, goal_id) as int], node_id),
    ensures
        ({
            let g = d.goals@[goal_pos(d, goal_id) as int];
            let n = node_of(g, node_id);
            &&& n.completed_at is Some && (forall|j: int|
                0 <= j < g.nodes@.len() && (#[trigger] g.nodes@[j]).requires@.contains(node_id) ==> g.nodes@[j].completed_at
                    is None) ==> toggle_error(d, goal_id, node_id) is None
            &&& n.completed_at is Some && (exists|j: int|
                0 <= j < g.nodes@.len() && (#[trigger] g.nodes@[j]).requires@.contains(node_id) && g.nodes@[j].completed_at
                    is Some) ==> toggle_error(d, goal_id, node_id) == Some("已有完成节点依赖它，暂时不能撤回"@)
            &&& n.completed_at is None && (forall|k: int|
                0 <= k < n.requires@.len() ==> has_node(g, #[trigger] n.requires@[k]) && node_of(g, n.requires@[k]).completed_at
                    is Some) ==> toggle_error(d, goal_id, node_id) is None
        }),
{
}

} // verus!
