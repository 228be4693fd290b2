//! What every goal keeps through the editing operations: distinct step ids,
//! prerequisites that name steps of the goal and form no cycle, completed
//! steps whose prerequisites are completed, and a goal completion that
//! follows its steps.
use vstd::prelude::*;

use super::goal::{all_done, done_count, has_node, node_ids, node_of};
use super::graph::{acyclic, ranked};
use super::ids::{first_pos, lemma_first_pos, lemma_first_pos_at};
use super::document::dedup;
use super::{Document, Goal, GoalNode};

verus! {

/// No two steps of `g` share an id.
pub open spec fn unique_steps(g: Goal) -> bool {
    forall|i: int, j: int| 0 <= i < j < g.nodes@.len() ==> g.nodes@[i].id != g.nodes@[j].id
}

/// Every prerequisite of every step names a step of the goal.
pub open spec fn refs_exist(g: Goal) -> bool {
    forall|i: int, k: int|
        0 <= i < g.nodes@.len() && 0 <= k < g.nodes@[i].requires@.len() ==> has_node(
            g,
            #[trigger] g.nodes@[i].requires@[k],
        )
}

/// Every completed step has all its prerequisites completed.
pub open spec fn order_kept(g: Goal) -> bool {
    forall|i: int, k: int|
        0 <= i < g.nodes@.len() && 0 <= k < g.nodes@[i].requires@.len() && g.nodes@[i].completed_at is Some
            ==> node_of(g, #[trigger] g.nodes@[i].requires@[k]).completed_at is Some
}

/// The goal counts as completed exactly when all its steps are.
pub open spec fn completion_matches(g: Goal) -> bool {
    g.completed_at is Some <==> all_done(g)
}

/// All that a goal keeps through editing.
pub open spec fn goal_sound(g: Goal) -> bool {
    &&& unique_steps(g)
    &&& refs_exist(g)
    &&& acyclic(g)
    &&& order_kept(g)
    &&& completion_matches(g)
}

/// Every goal of `d` is sound and every step id is below the next free one.
pub open spec fn goals_sound(d: Document) -> bool {
    &&& forall|i: int| 0 <= i < d.goals@.len() ==> goal_sound(#[trigger] d.goals@[i])
    &&& forall|a: int, b: int|
        0 <= a < d.goals@.len() && 0 <= b < d.goals@[a].nodes@.len() ==> (#[trigger] d.goals@[a].nodes@[b]).id
            < d.next_node_id
}

/// `rank` decreases along every prerequisite, with no bound on its values.
pub open spec fn edges_descend(g: Goal, rank: spec_fn(u64) -> nat) -> bool {
    forall|id: u64, r: u64|
        #![trigger has_node(g, id), node_of(g, id).requires@.contains(r), has_node(g, r)]
        has_node(g, id) && node_of(g, id).requires@.contains(r) && has_node(g, r) ==> rank(r) < rank(id)
}

/// How many of `nodes` rank below `v`.
pub open spec fn below(nodes: Seq<GoalNode>, rank: spec_fn(u64) -> nat, v: nat) -> nat
    decreases nodes.len(),
{
    if nodes.len() == 0 {
        0
    } else {
        below(nodes.drop_last(), rank, v) + if rank(nodes.last().id) < v {
            1nat
        } else {
            0nat
        }
    }
}

proof fn lemma_below_mono(nodes: Seq<GoalNode>, rank: spec_fn(u64) -> nat, v1: nat, v2: nat, i: int)
    requires
        v1 <= v2,
    ensures
        below(nodes, rank, v1) <= below(nodes, rank, v2),
        0 <= i < nodes.len() && v1 <= rank(nodes[i].id) < v2 ==> below(nodes, rank, v1) < below(nodes, rank, v2),
    decreases nodes.len(),
{
    if nodes.len() > 0 {
        if i == nodes.len() - 1 {
            lemma_below_mono(nodes.drop_last(), rank, v1, v2, i);
        } else {
            lemma_below_mono(nodes.drop_last(), rank, v1, v2, i);
            if 0 <= i < nodes.len() {
                assert(nodes.drop_last()[i] == nodes[i]);
            }
        }
    }
}

proof fn lemma_below_len(nodes: Seq<GoalNode>, rank: spec_fn(u64) -> nat, v: nat, i: int)
    ensures
        below(nodes, rank, v) <= nodes.len(),
        0 <= i < nodes.len() && rank(nodes[i].id) >= v ==> below(nodes, rank, v) < nodes.len(),
    decreases nodes.len(),
{
    if nodes.len() > 0 {
        lemma_below_len(nodes.drop_last(), rank, v, i);
        if 0 <= i < nodes.len() - 1 {
            assert(nodes.drop_last()[i] == nodes[i]);
        }
    }
}

/// A ranking that descends along prerequisites, however large, shows the
/// goal acyclic: counting the steps of lower rank gives one below the node count.
pub proof fn lemma_descending_acyclic(g: Goal, rank: spec_fn(u64) -> nat)
    requires
        edges_descend(g, rank),
    ensures
        acyclic(g),
{
    let dense = |x: u64| below(g.nodes@, rank, rank(x));
    assert forall|id: u64| #[trigger] has_node(g, id) implies dense(id) < g.nodes@.len() by {
        lemma_first_pos(node_ids(g.nodes@), id);
        let p = first_pos(node_ids(g.nodes@), id) as int;
        assert(node_ids(g.nodes@)[p] == g.nodes@[p].id);
        lemma_below_len(g.nodes@, rank, rank(id), p);
    }
    assert forall|id: u64, r: u64|
        #![trigger has_node(g, id), node_of(g, id).requires@.contains(r), has_node(g, r)]
        has_node(g, id) && node_of(g, id).requires@.contains(r) && has_node(g, r) implies dense(r) < dense(id) by {
        lemma_first_pos(node_ids(g.nodes@), r);
        let p = first_pos(node_ids(g.nodes@), r) as int;
        assert(node_ids(g.nodes@)[p] == g.nodes@[p].id);
        lemma_below_mono(g.nodes@, rank, rank(r), rank(id), p);
    }
    assert(ranked(g, dense));
}

/// With distinct ids, step `i` is the one that its id finds.
pub proof fn lemma_unique_find(g: Goal, i: int)
    requires
        unique_steps(g),
        0 <= i < g.nodes@.len(),
    ensures
        has_node(g, g.nodes@[i].id),
        first_pos(node_ids(g.nodes@), g.nodes@[i].id) == i,
        node_of(g, g.nodes@[i].id) == g.nodes@[i],
{
    let ids = node_ids(g.nodes@);
    assert forall|j: int| 0 <= j < i implies ids[j] != g.nodes@[i].id by {}
    lemma_first_pos_at(ids, g.nodes@[i].id, i);
}

/// A step id that the goal has is the id of the step at its first position.
pub proof fn lemma_found(g: Goal, id: u64)
    requires
        has_node(g, id),
    ensures
        0 <= first_pos(node_ids(g.nodes@), id) < g.nodes@.len(),
        g.nodes@[first_pos(node_ids(g.nodes@), id) as int].id == id,
        node_of(g, id) == g.nodes@[first_pos(node_ids(g.nodes@), id) as int],
{
    lemma_first_pos(node_ids(g.nodes@), id);
    let p = first_pos(node_ids(g.nodes@), id) as int;
    assert(node_ids(g.nodes@)[p] == g.nodes@[p].id);
}

/// Two goals whose steps carry the same ids and prerequisites, in the same
/// order, find the same steps.
pub open spec fn same_links(g: Goal, h: Goal) -> bool {
    &&& h.nodes@.len() == g.nodes@.len()
    &&& forall|i: int|
        0 <= i < g.nodes@.len() ==> (#[trigger] h.nodes@[i]).id == g.nodes@[i].id && h.nodes@[i].requires
            == g.nodes@[i].requires
}

proof fn lemma_same_links(g: Goal, h: Goal)
    requires
        same_links(g, h),
    ensures
        node_ids(h.nodes@) == node_ids(g.nodes@),
        forall|x: u64| #[trigger] has_node(h, x) == has_node(g, x),
        forall|x: u64| has_node(g, x) ==> (#[trigger] node_of(h, x)).requires == node_of(g, x).requires,
        unique_steps(g) ==> unique_steps(h),
        refs_exist(g) ==> refs_exist(h),
        acyclic(g) ==> acyclic(h),
{
    assert(node_ids(h.nodes@) =~= node_ids(g.nodes@));
    assert forall|x: u64| has_node(g, x) implies (#[trigger] node_of(h, x)).requires == node_of(g, x).requires by {
        lemma_found(g, x);
    }
    if refs_exist(g) {
        assert forall|i: int, k: int|
            0 <= i < h.nodes@.len() && 0 <= k < h.nodes@[i].requires@.len() implies has_node(
                h,
                #[trigger] h.nodes@[i].requires@[k],
            ) by {
            assert(g.nodes@[i].requires@[k] == h.nodes@[i].requires@[k]);
        }
    }
    if acyclic(g) {
        let rank = choose|rank: spec_fn(u64) -> nat| ranked(g, rank);
        assert forall|id: u64| #[trigger] has_node(h, id) implies rank(id) < h.nodes@.len() by {
            assert(has_node(g, id));
        }
        assert forall|id: u64, r: u64|
            #![trigger has_node(h, id), node_of(h, id).requires@.contains(r), has_node(h, r)]
            has_node(h, id) && node_of(h, id).requires@.contains(r) && has_node(h, r) implies rank(r) < rank(id) by {
            assert(has_node(g, id) && node_of(g, id).requires@.contains(r) && has_node(g, r));
        }
        assert(ranked(h, rank));
    }
}

proof fn lemma_done_count_same(a: Seq<GoalNode>, b: Seq<GoalNode>)
    requires
        a.len() == b.len(),
        forall|i: int| 0 <= i < a.len() ==> ((#[trigger] a[i]).completed_at is Some <==> b[i].completed_at is Some),
    ensures
        done_count(a) == done_count(b),
    decreases a.len(),
{
    if a.len() > 0 {
        assert forall|i: int| 0 <= i < a.len() - 1 implies ((#[trigger] a.drop_last()[i]).completed_at is Some
            <==> b.drop_last()[i].completed_at is Some) by {
            assert(a.drop_last()[i] == a[i]);
            assert(b.drop_last()[i] == b[i]);
        }
        lemma_done_count_same(a.drop_last(), b.drop_last());
        assert(a.last() == a[a.len() - 1]);
    }
}

/// Editing a step's title, description or shape keeps the goal sound.
pub proof fn lemma_relabel_sound(g: Goal, h: Goal)
    requires
        goal_sound(g),
        same_links(g, h),
        h.completed_at == g.completed_at,
        forall|i: int| 0 <= i < g.nodes@.len() ==> (#[trigger] h.nodes@[i]).completed_at == g.nodes@[i].completed_at,
    ensures
        goal_sound(h),
{
    lemma_same_links(g, h);
    assert forall|i: int, k: int|
        0 <= i < h.nodes@.len() && 0 <= k < h.nodes@[i].requires@.len() && h.nodes@[i].completed_at is Some
            implies node_of(h, #[trigger] h.nodes@[i].requires@[k]).completed_at is Some by {
        let r = h.nodes@[i].requires@[k];
        assert(g.nodes@[i].requires@[k] == r);
        assert(has_node(g, r));
        lemma_found(g, r);
        lemma_found(h, r);
    }
    lemma_done_count_same(g.nodes@, h.nodes@);
}

/// Completing an unlocked step, or reopening one that no completed step
/// requires, keeps the goal sound; the goal's completion is then set from
/// its steps.
pub proof fn lemma_toggle_sound(og: Goal, g: Goal, node_id: u64, ts: u64)
    requires
        goal_sound(og),
        has_node(og, node_id),
        ({
            let q = first_pos(node_ids(og.nodes@), node_id) as int;
            let completing = og.nodes@[q].completed_at is None;
            &&& completing ==> super::goal::unlocked(og, node_id)
            &&& !completing ==> !exists|j: int|
                0 <= j < og.nodes@.len() && (#[trigger] og.nodes@[j]).completed_at is Some
                    && og.nodes@[j].requires@.contains(node_id)
            &&& g.nodes@ == og.nodes@.update(q, GoalNode {
                completed_at: if completing { Some(ts) } else { None },
                ..og.nodes@[q]
            })
        }),
        g.completed_at == super::goal::synced_completion(Goal { nodes: g.nodes, ..og }, ts),
    ensures
        goal_sound(g),
{
    let q = first_pos(node_ids(og.nodes@), node_id) as int;
    let completing = og.nodes@[q].completed_at is None;
    lemma_found(og, node_id);
    assert(same_links(og, g)) by {
        assert forall|i: int| 0 <= i < og.nodes@.len() implies (#[trigger] g.nodes@[i]).id == og.nodes@[i].id
            && g.nodes@[i].requires == og.nodes@[i].requires by {
            if i != q {
                assert(g.nodes@[i] == og.nodes@[i]);
            }
        }
    }
    lemma_same_links(og, g);
    assert forall|i: int, k: int|
        0 <= i < g.nodes@.len() && 0 <= k < g.nodes@[i].requires@.len() && g.nodes@[i].completed_at is Some
            implies node_of(g, #[trigger] g.nodes@[i].requires@[k]).completed_at is Some by {
        let r = g.nodes@[i].requires@[k];
        assert(og.nodes@[i].requires@[k] == r);
        assert(has_node(og, r));
        lemma_found(og, r);
        lemma_found(g, r);
        let pr = first_pos(node_ids(og.nodes@), r) as int;
        assert(first_pos(node_ids(g.nodes@), r) as int == pr);
        if pr != q {
            assert(g.nodes@[pr] == og.nodes@[pr]);
            if completing {
                if i == q {
                    assert(og.nodes@[q].requires@[k] == r);
                    assert(has_node(og, node_of(og, node_id).requires@[k]));
                } else {
                    assert(g.nodes@[i] == og.nodes@[i]);
                }
            } else {
                assert(i != q);
                assert(g.nodes@[i] == og.nodes@[i]);
            }
        } else {
            if !completing {
                assert(og.nodes@[pr].id == node_id);
                assert(i != q);
                assert(g.nodes@[i] == og.nodes@[i]);
                assert(og.nodes@[i].requires@.contains(node_id));
            }
        }
    }
    let mid = Goal { nodes: g.nodes, ..og };
    assert(all_done(mid) == all_done(g));
}

/// Appending an open step with a new id whose prerequisites are steps of
/// the goal keeps the goal sound, and reopens the goal.
pub proof fn lemma_push_sound(og: Goal, g: Goal, n: GoalNode)
    requires
        goal_sound(og),
        forall|i: int| 0 <= i < og.nodes@.len() ==> (#[trigger] og.nodes@[i]).id != n.id,
        forall|k: int| 0 <= k < n.requires@.len() ==> has_node(og, #[trigger] n.requires@[k]),
        n.completed_at is None,
        g.nodes@ == og.nodes@.push(n),
        g.completed_at is None,
    ensures
        goal_sound(g),
{
    let len = og.nodes@.len();
    assert(node_ids(g.nodes@) =~= node_ids(og.nodes@).push(n.id));
    // steps already there keep their place; the new step is found at the end
    assert forall|x: u64| has_node(og, x) implies #[trigger] has_node(g, x) && node_of(g, x) == node_of(og, x) by {
        lemma_found(og, x);
        let p = first_pos(node_ids(og.nodes@), x) as int;
        assert forall|j: int| 0 <= j < p implies node_ids(g.nodes@)[j] != x by {
            lemma_first_pos(node_ids(og.nodes@), x);
            assert(node_ids(g.nodes@)[j] == node_ids(og.nodes@)[j]);
        }
        lemma_first_pos_at(node_ids(g.nodes@), x, p);
    }
    assert forall|j: int| 0 <= j < len implies node_ids(g.nodes@)[j] != n.id by {
        assert(node_ids(g.nodes@)[j] == og.nodes@[j].id);
    }
    lemma_first_pos_at(node_ids(g.nodes@), n.id, len as int);
    assert(node_of(g, n.id) == n);
    assert forall|x: u64| #[trigger] has_node(g, x) implies has_node(og, x) || x == n.id by {
        if !has_node(og, x) && x != n.id {
            lemma_first_pos(node_ids(og.nodes@), x);
            assert forall|j: int| 0 <= j < len + 1 implies node_ids(g.nodes@)[j] != x by {
                if j < len {
                    assert(node_ids(g.nodes@)[j] == node_ids(og.nodes@)[j]);
                }
            }
            lemma_first_pos_at(node_ids(g.nodes@), x, (len + 1) as int);
        }
    }
    // distinct ids
    assert forall|i: int, j: int| 0 <= i < j < g.nodes@.len() implies g.nodes@[i].id != g.nodes@[j].id by {
        if j == len {
            assert(g.nodes@[i] == og.nodes@[i]);
        } else {
            assert(g.nodes@[i] == og.nodes@[i]);
            assert(g.nodes@[j] == og.nodes@[j]);
        }
    }
    // prerequisites exist
    assert forall|i: int, k: int|
        0 <= i < g.nodes@.len() && 0 <= k < g.nodes@[i].requires@.len() implies has_node(
            g,
            #[trigger] g.nodes@[i].requires@[k],
        ) by {
        if i < len {
            assert(g.nodes@[i] == og.nodes@[i]);
            assert(has_node(og, og.nodes@[i].requires@[k]));
        } else {
            assert(g.nodes@[i] == n);
            assert(has_node(og, n.requires@[k]));
        }
    }
    // no cycle: the new step ranks above every other
    let rank = choose|rank: spec_fn(u64) -> nat| ranked(og, rank);
    let rank2 = |x: u64| if has_node(og, x) { rank(x) } else { len };
    assert forall|id: u64, r: u64|
        #![trigger has_node(g, id), node_of(g, id).requires@.contains(r), has_node(g, r)]
        has_node(g, id) && node_of(g, id).requires@.contains(r) && has_node(g, r) implies rank2(r) < rank2(id) by {
        let k = choose|k: int| 0 <= k < node_of(g, id).requires@.len() && node_of(g, id).requires@[k] == r;
        if has_node(og, id) {
            lemma_found(og, id);
            let p = first_pos(node_ids(og.nodes@), id) as int;
            assert(og.nodes@[p].requires@[k] == r);
            assert(has_node(og, og.nodes@[p].requires@[k]));
        } else {
            assert(has_node(og, n.requires@[k]));
        }
    }
    lemma_descending_acyclic(g, rank2);
    // completed steps keep completed prerequisites
    assert forall|i: int, k: int|
        0 <= i < g.nodes@.len() && 0 <= k < g.nodes@[i].requires@.len() && g.nodes@[i].completed_at is Some
            implies node_of(g, #[trigger] g.nodes@[i].requires@[k]).completed_at is Some by {
        assert(i < len);
        assert(g.nodes@[i] == og.nodes@[i]);
        assert(has_node(og, og.nodes@[i].requires@[k]));
    }
    // an open step: the goal is not done
    super::goal::lemma_done_count_bound(og.nodes@);
    assert(g.nodes@.drop_last() == og.nodes@);
}

/// Removing a step that no step requires keeps the goal sound, given a
/// goal completion that follows the remaining steps.
pub proof fn lemma_remove_sound(og: Goal, g: Goal, node_id: u64)
    requires
        goal_sound(og),
        has_node(og, node_id),
        forall|j: int| 0 <= j < og.nodes@.len() ==> !(#[trigger] og.nodes@[j]).requires@.contains(node_id),
        g.nodes@ == og.nodes@.remove(first_pos(node_ids(og.nodes@), node_id) as int),
        completion_matches(g),
    ensures
        goal_sound(g),
{
    let q = first_pos(node_ids(og.nodes@), node_id) as int;
    lemma_found(og, node_id);
    let len = og.nodes@.len();
    // position `i` of `g` is position `src(i)` of `og`
    assert forall|i: int| 0 <= i < g.nodes@.len() implies #[trigger] g.nodes@[i] == og.nodes@[if i < q { i } else { i + 1 }] by {}
    assert forall|i: int, j: int| 0 <= i < j < g.nodes@.len() implies g.nodes@[i].id != g.nodes@[j].id by {
        let a = if i < q { i } else { i + 1 };
        let b = if j < q { j } else { j + 1 };
        assert(g.nodes@[i] == og.nodes@[a]);
        assert(g.nodes@[j] == og.nodes@[b]);
    }
    // the steps that `g` finds are those of `og` but the removed one
    assert forall|x: u64| #[trigger] has_node(g, x) implies has_node(og, x) && x != node_id && node_of(g, x)
        == node_of(og, x) by {
        lemma_found(g, x);
        let p = first_pos(node_ids(g.nodes@), x) as int;
        let a = if p < q { p } else { p + 1 };
        assert(g.nodes@[p] == og.nodes@[a]);
        lemma_unique_find(og, a);
    }
    assert forall|x: u64| has_node(og, x) && x != node_id implies #[trigger] has_node(g, x) by {
        lemma_found(og, x);
        let p = first_pos(node_ids(og.nodes@), x) as int;
        assert(p != q);
        let b = if p < q { p } else { p - 1 };
        assert(g.nodes@[b] == og.nodes@[p]);
        lemma_unique_find(g, b);
    }
    assert forall|i: int, k: int|
        0 <= i < g.nodes@.len() && 0 <= k < g.nodes@[i].requires@.len() implies has_node(
            g,
            #[trigger] g.nodes@[i].requires@[k],
        ) by {
        let a = if i < q { i } else { i + 1 };
        assert(g.nodes@[i] == og.nodes@[a]);
        let r = og.nodes@[a].requires@[k];
        assert(has_node(og, r));
        assert(og.nodes@[a].requires@.contains(r));
    }
    let rank = choose|rank: spec_fn(u64) -> nat| ranked(og, rank);
    assert forall|id: u64, r: u64|
        #![trigger has_node(g, id), node_of(g, id).requires@.contains(r), has_node(g, r)]
        has_node(g, id) && node_of(g, id).requires@.contains(r) && has_node(g, r) implies rank(r) < rank(id) by {
        assert(has_node(og, id) && node_of(og, id).requires@.contains(r) && has_node(og, r));
    }
    lemma_descending_acyclic(g, rank);
    assert forall|i: int, k: int|
        0 <= i < g.nodes@.len() && 0 <= k < g.nodes@[i].requires@.len() && g.nodes@[i].completed_at is Some
            implies node_of(g, #[trigger] g.nodes@[i].requires@[k]).completed_at is Some by {
        let a = if i < q { i } else { i + 1 };
        assert(g.nodes@[i] == og.nodes@[a]);
        let r = og.nodes@[a].requires@[k];
        assert(og.nodes@[a].requires@[k] == r);
        assert(og.nodes@[a].requires@.contains(r));
        assert(has_node(og, r));
        assert(has_node(g, r));
    }
}

/// A goal without steps and not completed is sound.
pub proof fn lemma_empty_sound(g: Goal)
    requires
        g.nodes@.len() == 0,
        g.completed_at is None,
    ensures
        goal_sound(g),
{
    let rank = |x: u64| 0nat;
    assert forall|x: u64| !has_node(g, x) by {}
    assert(ranked(g, rank));
}

/// Replacing one goal of a sound document by a sound goal whose step ids
/// are below the next free one keeps the document sound.
pub proof fn lemma_goal_replaced(d: Document, d2: Document, p: int, g: Goal)
    requires
        goals_sound(d),
        0 <= p < d.goals@.len(),
        d2.goals@ == d.goals@.update(p, g),
        goal_sound(g),
        d.next_node_id <= d2.next_node_id,
        forall|b: int| 0 <= b < g.nodes@.len() ==> (#[trigger] g.nodes@[b]).id < d2.next_node_id,
    ensures
        goals_sound(d2),
{
    assert forall|i: int| 0 <= i < d2.goals@.len() implies goal_sound(#[trigger] d2.goals@[i]) by {
        if i != p {
            assert(d2.goals@[i] == d.goals@[i]);
        }
    }
    assert forall|a: int, b: int|
        0 <= a < d2.goals@.len() && 0 <= b < d2.goals@[a].nodes@.len() implies (#[trigger] d2.goals@[a].nodes@[b]).id
            < d2.next_node_id by {
        if a != p {
            assert(d2.goals@[a] == d.goals@[a]);
            assert(d.goals@[a].nodes@[b].id < d.next_node_id);
        }
    }
}

/// Every id that `dedup` keeps was in the list.
pub proof fn lemma_dedup_from(s: Seq<u64>)
    ensures
        forall|k: int| 0 <= k < dedup(s).len() ==> s.contains(#[trigger] dedup(s)[k]),
    decreases s.len(),
{
    if s.len() > 0 {
        lemma_dedup_from(s.drop_last());
        let rest = dedup(s.drop_last());
        assert forall|k: int| 0 <= k < dedup(s).len() implies s.contains(#[trigger] dedup(s)[k]) by {
            if k < rest.len() {
                assert(dedup(s)[k] == rest[k]);
                assert(s.drop_last().contains(rest[k]));
                let j = choose|j: int| 0 <= j < s.drop_last().len() && s.drop_last()[j] == rest[k];
                assert(s[j] == rest[k]);
            } else {
                assert(dedup(s)[k] == s.last());
                assert(s[s.len() - 1] == s.last());
            }
        }
    }
}

/// Appending a sound goal without steps keeps the document sound.
pub proof fn lemma_goal_pushed(d: Document, d2: Document, g: Goal)
    requires
        goals_sound(d),
        d2.goals@ == d.goals@.push(g),
        goal_sound(g),
        g.nodes@.len() == 0,
        d.next_node_id == d2.next_node_id,
    ensures
        goals_sound(d2),
{
    assert forall|i: int| 0 <= i < d2.goals@.len() implies goal_sound(#[trigger] d2.goals@[i]) by {
        if i < d.goals@.len() {
            assert(d2.goals@[i] == d.goals@[i]);
        }
    }
    assert forall|a: int, b: int|
        0 <= a < d2.goals@.len() && 0 <= b < d2.goals@[a].nodes@.len() implies (#[trigger] d2.goals@[a].nodes@[b]).id
            < d2.next_node_id by {
        assert(a < d.goals@.len());
        assert(d2.goals@[a] == d.goals@[a]);
        assert(d.goals@[a].nodes@[b].id < d.next_node_id);
    }
}

/// Removing a goal keeps the document sound.
pub proof fn lemma_goal_removed(d: Document, d2: Document, p: int)
    requires
        goals_sound(d),
        0 <= p < d.goals@.len(),
        d2.goals@ == d.goals@.remove(p),
        d.next_node_id == d2.next_node_id,
    ensures
        goals_sound(d2),
{
    assert forall|i: int| 0 <= i < d2.goals@.len() implies goal_sound(#[trigger] d2.goals@[i]) by {
        let a = if i < p { i } else { i + 1 };
        assert(d2.goals@[i] == d.goals@[a]);
    }
    assert forall|i: int, b: int|
        0 <= i < d2.goals@.len() && 0 <= b < d2.goals@[i].nodes@.len() implies (#[trigger] d2.goals@[i].nodes@[b]).id
            < d2.next_node_id by {
        let a = if i < p { i } else { i + 1 };
        assert(d2.goals@[i] == d.goals@[a]);
        assert(d.goals@[a].nodes@[b].id < d.next_node_id);
    }
}

/// The part of soundness that a loaded document can be checked for: distinct
/// step ids, prerequisites that name steps and form no cycle, and step ids
/// below the next free one. Completion marks are taken as stored.
pub open spec fn goals_structured(d: Document) -> bool {
    &&& forall|i: int|
        0 <= i < d.goals@.len() ==> {
            &&& unique_steps(#[trigger] d.goals@[i])
            &&& refs_exist(d.goals@[i])
            &&& acyclic(d.goals@[i])
        }
    &&& forall|a: int, b: int|
        0 <= a < d.goals@.len() && 0 <= b < d.goals@[a].nodes@.len() ==> (#[trigger] d.goals@[a].nodes@[b]).id
            < d.next_node_id
}

/// Every completed step's prerequisites name steps of the goal, and those
/// steps are completed.
pub open spec fn order_named(g: Goal) -> bool {
    forall|i: int, k: int|
        0 <= i < g.nodes@.len() && 0 <= k < g.nodes@[i].requires@.len() && g.nodes@[i].completed_at is Some
            ==> has_node(g, #[trigger] g.nodes@[i].requires@[k]) && node_of(g, g.nodes@[i].requires@[k]).completed_at is Some
}

/// Completion is consistent in `g`: completed steps have completed
/// prerequisites, and the goal is completed exactly when it has steps and
/// all are completed. Step ids may repeat.
pub open spec fn goal_consistent(g: Goal) -> bool {
    order_named(g) && completion_matches(g)
}

/// Completion is consistent in every goal of `d`.
pub open spec fn goals_consistent(d: Document) -> bool {
    forall|i: int| 0 <= i < d.goals@.len() ==> goal_consistent(#[trigger] d.goals@[i])
}

/// Completing an unlocked step, or reopening one that no completed step
/// requires, keeps completion consistent, whether or not step ids repeat.
pub proof fn lemma_toggle_consistent(og: Goal, g: Goal, node_id: u64, ts: u64)
    requires
        goal_consistent(og),
        has_node(og, node_id),
        ({
            let q = first_pos(node_ids(og.nodes@), node_id) as int;
            let completing = og.nodes@[q].completed_at is None;
            &&& completing ==> super::goal::unlocked(og, node_id)
            &&& !completing ==> !exists|j: int|
                0 <= j < og.nodes@.len() && (#[trigger] og.nodes@[j]).completed_at is Some
                    && og.nodes@[j].requires@.contains(node_id)
            &&& g.nodes@ == og.nodes@.update(q, GoalNode {
                completed_at: if completing { Some(ts) } else { None },
                ..og.nodes@[q]
            })
        }),
        g.completed_at == super::goal::synced_completion(Goal { nodes: g.nodes, ..og }, ts),
    ensures
        goal_consistent(g),
{
    let q = first_pos(node_ids(og.nodes@), node_id) as int;
    let completing = og.nodes@[q].completed_at is None;
    lemma_found(og, node_id);
    assert(node_ids(g.nodes@) =~= node_ids(og.nodes@)) by {
        assert forall|i: int| 0 <= i < og.nodes@.len() implies node_ids(g.nodes@)[i] == node_ids(og.nodes@)[i] by {
            if i != q {
                assert(g.nodes@[i] == og.nodes@[i]);
            }
        }
    }
    assert forall|i: int, k: int|
        0 <= i < g.nodes@.len() && 0 <= k < g.nodes@[i].requires@.len() && g.nodes@[i].completed_at is Some
            implies has_node(g, #[trigger] g.nodes@[i].requires@[k]) && node_of(g, g.nodes@[i].requires@[k]).completed_at
            is Some by {
        let r = g.nodes@[i].requires@[k];
        assert(og.nodes@[i].requires@[k] == r);
        if i == q {
            assert(completing);
            assert(has_node(og, node_of(og, node_id).requires@[k]));
        } else {
            assert(g.nodes@[i] == og.nodes@[i]);
        }
        assert(has_node(og, r));
        lemma_found(og, r);
        let pr = first_pos(node_ids(og.nodes@), r) as int;
        assert(first_pos(node_ids(g.nodes@), r) as int == pr);
        assert(has_node(g, r));
        assert(node_of(g, r) == g.nodes@[pr]);
        if pr != q {
            assert(g.nodes@[pr] == og.nodes@[pr]);
        } else if !completing {
            assert(og.nodes@[pr].id == node_id);
            assert(og.nodes@[i].requires@[k] == node_id);
            assert(og.nodes@[i].requires@.contains(node_id));
            assert(og.nodes@[i].completed_at is Some);
        } else {
            assert(g.nodes@[q].completed_at == Some(ts));
        }
    }
    let mid = Goal { nodes: g.nodes, ..og };
    assert(all_done(mid) == all_done(g));
}

/// Appending an open step whose prerequisites are steps of the goal keeps
/// completion consistent, and reopens the goal; step ids may repeat.
pub proof fn lemma_push_consistent(og: Goal, g: Goal, n: GoalNode)
    requires
        goal_consistent(og),
        n.completed_at is None,
        g.nodes@ == og.nodes@.push(n),
        g.completed_at is None,
    ensures
        goal_consistent(g),
{
    let len = og.nodes@.len();
    assert(node_ids(g.nodes@) =~= node_ids(og.nodes@).push(n.id));
    assert forall|x: u64| has_node(og, x) implies #[trigger] has_node(g, x) && node_of(g, x) == node_of(og, x) by {
        lemma_found(og, x);
        let p = first_pos(node_ids(og.nodes@), x) as int;
        assert forall|j: int| 0 <= j < p implies node_ids(g.nodes@)[j] != x by {
            lemma_first_pos(node_ids(og.nodes@), x);
            assert(node_ids(g.nodes@)[j] == node_ids(og.nodes@)[j]);
        }
        lemma_first_pos_at(node_ids(g.nodes@), x, p);
    }
    assert forall|i: int, k: int|
        0 <= i < g.nodes@.len() && 0 <= k < g.nodes@[i].requires@.len() && g.nodes@[i].completed_at is Some
            implies has_node(g, #[trigger] g.nodes@[i].requires@[k]) && node_of(g, g.nodes@[i].requires@[k]).completed_at
            is Some by {
        assert(i < len);
        assert(g.nodes@[i] == og.nodes@[i]);
        let r = og.nodes@[i].requires@[k];
        assert(g.nodes@[i].requires@[k] == r);
        assert(has_node(og, r));
        assert(node_of(og, r).completed_at is Some);
        assert(has_node(g, r));
        assert(node_of(g, r) == node_of(og, r));
    }
    super::goal::lemma_done_count_bound(og.nodes@);
    assert(g.nodes@.drop_last() == og.nodes@);
}

/// Replacing one goal by a consistent one keeps the document consistent.
pub proof fn lemma_goal_replaced_consistent(d: Document, d2: Document, p: int, g: Goal)
    requires
        goals_consistent(d),
        0 <= p < d.goals@.len(),
        d2.goals@ == d.goals@.update(p, g),
        goal_consistent(g),
    ensures
        goals_consistent(d2),
{
    assert forall|i: int| 0 <= i < d2.goals@.len() implies goal_consistent(#[trigger] d2.goals@[i]) by {
        if i != p {
            assert(d2.goals@[i] == d.goals@[i]);
        }
    }
}

/// Editing a step's title, description or shape keeps completion consistent.
pub proof fn lemma_relabel_consistent(g: Goal, h: Goal)
    requires
        goal_consistent(g),
        same_links(g, h),
        h.completed_at == g.completed_at,
        forall|i: int| 0 <= i < g.nodes@.len() ==> (#[trigger] h.nodes@[i]).completed_at == g.nodes@[i].completed_at,
    ensures
        goal_consistent(h),
{
    lemma_same_links(g, h);
    assert forall|i: int, k: int|
        0 <= i < h.nodes@.len() && 0 <= k < h.nodes@[i].requires@.len() && h.nodes@[i].completed_at is Some
            implies has_node(h, #[trigger] h.nodes@[i].requires@[k]) && node_of(h, h.nodes@[i].requires@[k]).completed_at
            is Some by {
        let r = h.nodes@[i].requires@[k];
        assert(g.nodes@[i].requires@[k] == r);
        assert(has_node(g, r));
        lemma_found(g, r);
        lemma_found(h, r);
    }
    lemma_done_count_same(g.nodes@, h.nodes@);
}

/// Appending a goal without steps and not completed keeps the document consistent.
pub proof fn lemma_goal_pushed_consistent(d: Document, d2: Document, g: Goal)
    requires
        goals_consistent(d),
        d2.goals@ == d.goals@.push(g),
        g.nodes@.len() == 0,
        g.completed_at is None,
    ensures
        goals_consistent(d2),
{
    assert forall|i: int| 0 <= i < d2.goals@.len() implies goal_consistent(#[trigger] d2.goals@[i]) by {
        if i < d.goals@.len() {
            assert(d2.goals@[i] == d.goals@[i]);
        }
    }
}

/// Removing a goal keeps the document consistent.
pub proof fn lemma_goal_removed_consistent(d: Document, d2: Document, p: int)
    requires
        goals_consistent(d),
        0 <= p < d.goals@.len(),
        d2.goals@ == d.goals@.remove(p),
    ensures
        goals_consistent(d2),
{
    assert forall|i: int| 0 <= i < d2.goals@.len() implies goal_consistent(#[trigger] d2.goals@[i]) by {
        let a = if i < p { i } else { i + 1 };
        assert(d2.goals@[i] == d.goals@[a]);
    }
}

/// Removing a step that no step requires keeps completion consistent,
/// given a goal completion that follows the remaining steps; step ids may repeat.
pub proof fn lemma_remove_consistent(og: Goal, g: Goal, node_id: u64)
    requires
        goal_consistent(og),
        has_node(og, node_id),
        forall|j: int| 0 <= j < og.nodes@.len() ==> !(#[trigger] og.nodes@[j]).requires@.contains(node_id),
        g.nodes@ == og.nodes@.remove(first_pos(node_ids(og.nodes@), node_id) as int),
        completion_matches(g),
    ensures
        goal_consistent(g),
{
    let q = first_pos(node_ids(og.nodes@), node_id) as int;
    lemma_found(og, node_id);
    assert forall|i: int| 0 <= i < g.nodes@.len() implies #[trigger] g.nodes@[i] == og.nodes@[if i < q { i } else { i + 1 }] by {}
    assert forall|i: int, k: int|
        0 <= i < g.nodes@.len() && 0 <= k < g.nodes@[i].requires@.len() && g.nodes@[i].completed_at is Some
            implies has_node(g, #[trigger] g.nodes@[i].requires@[k]) && node_of(g, g.nodes@[i].requires@[k]).completed_at
            is Some by {
        let a = if i < q { i } else { i + 1 };
        assert(g.nodes@[i] == og.nodes@[a]);
        let r = og.nodes@[a].requires@[k];
        assert(g.nodes@[i].requires@[k] == r);
        assert(og.nodes@[a].requires@.contains(r));
        assert(r != node_id);
        assert(has_node(og, r));
        lemma_found(og, r);
        lemma_first_pos(node_ids(og.nodes@), r);
        let p = first_pos(node_ids(og.nodes@), r) as int;
        assert(p != q);
        let b = if p < q { p } else { p - 1 };
        assert(g.nodes@[b] == og.nodes@[p]);
        assert forall|j: int| 0 <= j < b implies node_ids(g.nodes@)[j] != r by {
            let c = if j < q { j } else { j + 1 };
            assert(g.nodes@[j] == og.nodes@[c]);
            assert(node_ids(og.nodes@)[c] == og.nodes@[c].id);
        }
        assert(node_ids(g.nodes@)[b] == r);
        lemma_first_pos_at(node_ids(g.nodes@), r, b);
    }
}

} // verus!
