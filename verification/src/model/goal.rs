//! Goals: a tree of steps, each of which may require other steps first.
use vstd::prelude::*;

use super::ids::{first_pos, has_id, lemma_first_pos, lemma_first_pos_at};
use super::{Goal, GoalNode};

verus! {

/// The ids of `nodes`, in order.
pub open spec fn node_ids(nodes: Seq<GoalNode>) -> Seq<u64> {
    nodes.map_values(|n: GoalNode| n.id)
}

/// `g` has a node with this id.
pub open spec fn has_node(g: Goal, id: u64) -> bool {
    has_id(node_ids(g.nodes@), id)
}

/// The node with this id that `g` holds first.
pub open spec fn node_of(g: Goal, id: u64) -> GoalNode {
    g.nodes@[first_pos(node_ids(g.nodes@), id) as int]
}

/// The node exists and every step it requires exists and is completed.
pub open spec fn unlocked(g: Goal, id: u64) -> bool {
    &&& has_node(g, id)
    &&& forall|k: int|
        0 <= k < node_of(g, id).requires@.len() ==> {
            &&& #[trigger] has_node(g, node_of(g, id).requires@[k])
            &&& node_of(g, node_of(g, id).requires@[k]).completed_at is Some
        }
}

/// How many of `nodes` are completed.
pub open spec fn done_count(nodes: Seq<GoalNode>) -> nat
    decreases nodes.len(),
{
    if nodes.len() == 0 {
        0
    } else {
        done_count(nodes.drop_last()) + if nodes.last().completed_at is Some {
            1nat
        } else {
            0nat
        }
    }
}

/// All steps of `g` are completed, and there is at least one.
pub open spec fn all_done(g: Goal) -> bool {
    g.nodes@.len() > 0 && done_count(g.nodes@) == g.nodes@.len()
}

/// When a goal counts as completed after a change at `timestamp`: it keeps
/// an earlier completion time, and loses it when a step is open again.
pub open spec fn synced_completion(g: Goal, timestamp: u64) -> Option<u64> {
    if all_done(g) {
        if g.completed_at is Some {
            g.completed_at
        } else {
            Some(timestamp)
        }
    } else {
        None
    }
}

pub proof fn lemma_done_count_bound(nodes: Seq<GoalNode>)
    ensures
        done_count(nodes) <= nodes.len(),
    decreases nodes.len(),
{
    if nodes.len() > 0 {
        lemma_done_count_bound(nodes.drop_last());
    }
}

/// How many steps of a goal are completed, out of how many.
#[derive(Debug, PartialEq, Eq, Clone, Copy)]
pub struct GoalTally {
    pub completed: usize,
    pub total: usize,
}

/// Position of the first node with this id, found by walking the nodes.
pub fn node_index(nodes: &Vec<GoalNode>, id: u64) -> (p: usize)
    ensures
        p == first_pos(node_ids(nodes@), id),
        p <= nodes@.len(),
{
    let mut i: usize = 0;
    while i < nodes.len()
        invariant
            i <= nodes@.len(),
            forall|j: int| 0 <= j < i ==> nodes@[j].id != id,
        decreases nodes.len() - i,
    {
        if nodes[i].id == id {
            proof {
                assert forall|j: int| 0 <= j < i implies node_ids(nodes@)[j] != id by {}
                lemma_first_pos_at(node_ids(nodes@), id, i as int);
            }
            return i;
        }
        i = i + 1;
    }
    proof {
        assert forall|j: int| 0 <= j < i implies node_ids(nodes@)[j] != id by {}
        lemma_first_pos_at(node_ids(nodes@), id, i as int);
    }
    i
}

impl Goal {
    pub fn find_node(&self, id: u64) -> (r: Option<&GoalNode>)
        ensures
            match r {
                Some(n) => has_node(*self, id) && *n == node_of(*self, id),
                None => !has_node(*self, id),
            },
    {
        let p = node_index(&self.nodes, id);
        if p < self.nodes.len() {
            Some(&self.nodes[p])
        } else {
            None
        }
    }

    /// Whether the step can be completed now.
    pub fn node_unlocked(&self, node_id: u64) -> (r: bool)
        ensures
            r == unlocked(*self, node_id),
    {
        let node = match self.find_node(node_id) {
            Some(n) => n,
            None => return false,
        };
        let mut k: usize = 0;
        while k < node.requires.len()
            invariant
                has_node(*self, node_id),
                *node == node_of(*self, node_id),
                k <= node.requires@.len(),
                forall|j: int| 0 <= j < k ==> #[trigger] has_node(*self, node.requires@[j]),
                forall|j: int|
                    0 <= j < k ==> (#[trigger] node_of(*self, node.requires@[j])).completed_at is Some,
            decreases node.requires.len() - k,
        {
            let id = node.requires[k];
            match self.find_node(id) {
                Some(required) => {
                    if required.completed_at.is_none() {
                        return false;
                    }
                },
                None => return false,
            }
            assert(has_node(*self, node.requires@[k as int]) && node_of(*self, node.requires@[k as int]).completed_at is Some);
            k = k + 1;
        }
        true
    }

    /// Completed steps and all steps.
    pub fn tally(&self) -> (t: GoalTally)
        ensures
            t.completed == done_count(self.nodes@),
            t.total == self.nodes@.len(),
    {
        let mut completed: usize = 0;
        let mut i: usize = 0;
        while i < self.nodes.len()
            invariant
                i <= self.nodes@.len(),
                completed == done_count(self.nodes@.take(i as int)),
            decreases self.nodes.len() - i,
        {
            proof {
                assert(self.nodes@.take(i + 1).drop_last() == self.nodes@.take(i as int));
                lemma_done_count_bound(self.nodes@.take(i as int));
            }
            if self.nodes[i].completed_at.is_some() {
                completed = completed + 1;
            }
            i = i + 1;
        }
        assert(self.nodes@.take(i as int) == self.nodes@);
        GoalTally { completed, total: self.nodes.len() }
    }

    /// Sets the goal's completion from its steps.
    pub fn sync_completion(&mut self, timestamp: u64)
        ensures
            *final(self) == (Goal { completed_at: synced_completion(*old(self), timestamp), ..*old(self) }),
    {
        let t = self.tally();
        self.completed_at = if t.total > 0 && t.completed == t.total {
            match self.completed_at {
                Some(c) => Some(c),
                None => Some(timestamp),
            }
        } else {
            None
        };
    }
}

} // verus!
