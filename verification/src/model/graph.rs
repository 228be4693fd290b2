//! The prerequisite graph of a goal: cycle detection and the level of each step.
use vstd::prelude::*;

use super::goal::{has_node, node_ids, node_index, node_of};
use super::ids::{first_pos, lemma_first_pos};
use super::Goal;

verus! {

/// `rank` numbers the steps of `g` below the node count so that every
/// existing prerequisite of a step ranks below the step itself.
pub open spec fn ranked(g: Goal, rank: spec_fn(u64) -> nat) -> bool {
    &&& forall|id: u64| #[trigger] has_node(g, id) ==> rank(id) < g.nodes@.len()
    &&& forall|id: u64, r: u64|
        #![trigger has_node(g, id), node_of(g, id).requires@.contains(r), has_node(g, r)]
        has_node(g, id) && node_of(g, id).requires@.contains(r) && has_node(g, r) ==> rank(r)
            < rank(id)
}

/// No step of `g` depends, directly or through other steps, on itself.
pub open spec fn acyclic(g: Goal) -> bool {
    exists|rank: spec_fn(u64) -> nat| ranked(g, rank)
}

/// Positions of the nodes that `reqs` name, in order, skipping ids without a node.
pub open spec fn found_positions(g: Goal, reqs: Seq<u64>) -> Seq<usize>
    decreases reqs.len(),
{
    if reqs.len() == 0 {
        seq![]
    } else {
        let rest = found_positions(g, reqs.drop_last());
        if has_node(g, reqs.last()) {
            rest.push(first_pos(node_ids(g.nodes@), reqs.last()) as usize)
        } else {
            rest
        }
    }
}

pub proof fn lemma_found_positions(g: Goal, reqs: Seq<u64>)
    ensures
        forall|k: int|
            0 <= k < found_positions(g, reqs).len() ==> {
                let p = #[trigger] found_positions(g, reqs)[k];
                &&& p < g.nodes@.len()
                &&& reqs.contains(g.nodes@[p as int].id)
                &&& first_pos(node_ids(g.nodes@), g.nodes@[p as int].id) == p
            },
        forall|r: u64|
            reqs.contains(r) && has_node(g, r) ==> #[trigger] found_positions(g, reqs).contains(
                first_pos(node_ids(g.nodes@), r) as usize,
            ),
    decreases reqs.len(),
{
    assert(g.nodes.len() == g.nodes@.len());
    if reqs.len() > 0 {
        let rest = reqs.drop_last();
        lemma_found_positions(g, rest);
        lemma_first_pos(node_ids(g.nodes@), reqs.last());
        let fp = found_positions(g, reqs);
        let fr = found_positions(g, rest);
        assert forall|k: int| 0 <= k < fp.len() implies {
            let p = #[trigger] fp[k];
            &&& p < g.nodes@.len()
            &&& reqs.contains(g.nodes@[p as int].id)
            &&& first_pos(node_ids(g.nodes@), g.nodes@[p as int].id) == p
        } by {
            if k < fr.len() {
                assert(fp[k] == fr[k]);
                let x = g.nodes@[fp[k] as int].id;
                let j = choose|j: int| 0 <= j < rest.len() && rest[j] == x;
                assert(reqs[j] == x);
            } else {
                let p = fp[k];
                assert(node_ids(g.nodes@)[p as int] == reqs.last());
                assert(reqs[reqs.len() - 1] == reqs.last());
                lemma_first_pos(node_ids(g.nodes@), g.nodes@[p as int].id);
            }
        }
        assert forall|r: u64| reqs.contains(r) && has_node(g, r) implies #[trigger] fp.contains(
            first_pos(node_ids(g.nodes@), r) as usize,
        ) by {
            let j = choose|j: int| 0 <= j < reqs.len() && reqs[j] == r;
            if j < reqs.len() - 1 {
                assert(rest[j] == r);
                let q = first_pos(node_ids(g.nodes@), r) as usize;
                assert(rest.contains(r));
                assert(fr.contains(q));
                let k = choose|k: int| 0 <= k < fr.len() && fr[k] == q;
                assert(fp[k] == q);
            } else {
                assert(fp[fp.len() - 1] == first_pos(node_ids(g.nodes@), r) as usize);
            }
        }
    }
}

/// Positions of the existing prerequisites of the node with this id.
fn positions_of(g: &Goal, reqs: &Vec<u64>) -> (ps: Vec<usize>)
    ensures
        ps@ == found_positions(*g, reqs@),
{
    let mut ps: Vec<usize> = Vec::new();
    for k in 0..reqs.len()
        invariant
            ps@ == found_positions(*g, reqs@.take(k as int)),
    {
        assert(reqs@.take(k + 1).drop_last() == reqs@.take(k as int));
        let p = node_index(&g.nodes, reqs[k]);
        if p < g.nodes.len() {
            ps.push(p);
        }
    }
    assert(reqs@.take(reqs.len() as int) == reqs@);
    ps
}

/// For each node, the positions of the prerequisites that its id's node names.
pub open spec fn required_positions_ok(g: Goal, all: Seq<Vec<usize>>) -> bool {
    &&& all.len() == g.nodes@.len()
    &&& forall|i: int|
        0 <= i < all.len() ==> (#[trigger] all[i])@ == found_positions(
            g,
            node_of(g, g.nodes@[i].id).requires@,
        )
}

fn required_positions(g: &Goal) -> (all: Vec<Vec<usize>>)
    ensures
        required_positions_ok(*g, all@),
{
    let mut all: Vec<Vec<usize>> = Vec::new();
    for i in 0..g.nodes.len()
        invariant
            all@.len() == i,
            forall|j: int|
                0 <= j < i ==> (#[trigger] all@[j])@ == found_positions(
                    *g,
                    node_of(*g, g.nodes@[j].id).requires@,
                ),
    {
        let p = node_index(&g.nodes, g.nodes[i].id);
        proof {
            lemma_first_pos(node_ids(g.nodes@), g.nodes@[i as int].id);
            assert(node_ids(g.nodes@)[i as int] == g.nodes@[i as int].id);
        }
        let ps = positions_of(g, &g.nodes[p].requires);
        all.push(ps);
    }
    all
}

/// How many entries of `s` are true.
pub open spec fn count_true(s: Seq<bool>) -> nat
    decreases s.len(),
{
    if s.len() == 0 {
        0
    } else {
        count_true(s.drop_last()) + if s.last() {
            1nat
        } else {
            0nat
        }
    }
}

proof fn lemma_count_true(s: Seq<bool>)
    ensures
        count_true(s) <= s.len(),
        count_true(s) == s.len() <==> forall|i: int| 0 <= i < s.len() ==> s[i],
    decreases s.len(),
{
    if s.len() > 0 {
        lemma_count_true(s.drop_last());
        if count_true(s) == s.len() {
            assert forall|i: int| 0 <= i < s.len() implies s[i] by {
                if i < s.len() - 1 {
                    assert(s.drop_last()[i] == s[i]);
                }
            }
        }
        if forall|i: int| 0 <= i < s.len() ==> s[i] {
            assert forall|i: int| 0 <= i < s.drop_last().len() implies s.drop_last()[i] by {
                assert(s.drop_last()[i] == s[i]);
            }
        }
    }
}

proof fn lemma_count_true_set(s: Seq<bool>, i: int)
    requires
        0 <= i < s.len(),
        !s[i],
    ensures
        count_true(s.update(i, true)) == count_true(s) + 1,
    decreases s.len(),
{
    let t = s.update(i, true);
    if i == s.len() - 1 {
        assert(t.drop_last() == s.drop_last());
    } else {
        assert(t.drop_last() == s.drop_last().update(i, true));
        lemma_count_true_set(s.drop_last(), i);
    }
}

/// The ranks of the steps that are blocked never bottom out: there is none.
proof fn lemma_blocked_unranked(
    g: Goal,
    all: Seq<Vec<usize>>,
    done: Seq<bool>,
    rank: spec_fn(u64) -> nat,
    b: nat,
)
    requires
        required_positions_ok(g, all),
        done.len() == g.nodes@.len(),
        ranked(g, rank),
        forall|i: int|
            0 <= i < done.len() && !done[i] ==> exists|k: int|
                0 <= k < all[i]@.len() && !done[(#[trigger] all[i]@[k]) as int],
    ensures
        forall|i: int| 0 <= i < done.len() && !done[i] ==> rank(g.nodes@[i].id) >= b,
    decreases b,
{
    if b > 0 {
        lemma_blocked_unranked(g, all, done, rank, (b - 1) as nat);
        assert forall|i: int| 0 <= i < done.len() && !done[i] implies rank(g.nodes@[i].id) >= b by {
            let k = choose|k: int| 0 <= k < all[i]@.len() && !done[(#[trigger] all[i]@[k]) as int];
            let id = g.nodes@[i].id;
            let reqs = node_of(g, id).requires@;
            lemma_found_positions(g, reqs);
            lemma_first_pos(node_ids(g.nodes@), id);
            let q = all[i]@[k];
            assert(node_ids(g.nodes@)[i] == id);
            let r = g.nodes@[q as int].id;
            assert(has_node(g, id));
            assert(reqs.contains(r));
            assert(has_node(g, r));
            assert(rank(r) < rank(id));
        }
    }
}

impl Goal {
    /// Whether the prerequisites of the goal's steps form no cycle.
    pub fn dependencies_acyclic(&self) -> (b: bool)
        ensures
            b == acyclic(*self),
    {
        let all = required_positions(self);
        let n = self.nodes.len();
        let mut done: Vec<bool> = Vec::new();
        for i in 0..n
            invariant
                done@.len() == i,
                forall|j: int| 0 <= j < i ==> !done@[j],
        {
            done.push(false);
        }
        let ghost mut rank_of: Seq<nat> = Seq::new(n as nat, |i: int| 0nat);
        let mut count: usize = 0;
        proof {
            assert(count_true(done@) == 0) by {
                lemma_count_true_zero(done@);
            }
        }
        let mut progress = true;
        while progress
            invariant
                required_positions_ok(*self, all@),
                n == self.nodes@.len(),
                done@.len() == n,
                rank_of.len() == n,
                count == count_true(done@),
                count <= n,
                forall|i: int| 0 <= i < n && done@[i] ==> rank_of[i] < count,
                forall|i: int, k: int|
                    0 <= i < n && done@[i] && 0 <= k < all@[i]@.len() ==> {
                        &&& done@[(#[trigger] all@[i]@[k]) as int]
                        &&& rank_of[all@[i]@[k] as int] < rank_of[i]
                    },
                !progress ==> forall|i: int|
                    0 <= i < n && !done@[i] ==> exists|k: int|
                        0 <= k < all@[i]@.len() && !done@[(#[trigger] all@[i]@[k]) as int],
            decreases n - count + if progress {
                1int
            } else {
                0int
            },
        {
            let ghost start_count = count;
            let ghost start_done = done@;
            progress = false;
            for i in 0..n
                invariant
                    required_positions_ok(*self, all@),
                    n == self.nodes@.len(),
                    done@.len() == n,
                    rank_of.len() == n,
                    count == count_true(done@),
                    count <= n,
                    start_count <= count,
                    progress <==> count > start_count,
                    !progress ==> done@ == start_done,
                    forall|j: int| 0 <= j < n && done@[j] ==> rank_of[j] < count,
                    forall|j: int, k: int|
                        0 <= j < n && done@[j] && 0 <= k < all@[j]@.len() ==> {
                            &&& done@[(#[trigger] all@[j]@[k]) as int]
                            &&& rank_of[all@[j]@[k] as int] < rank_of[j]
                        },
                    !progress ==> forall|j: int|
                        0 <= j < i && !done@[j] ==> exists|k: int|
                            0 <= k < all@[j]@.len() && !done@[(#[trigger] all@[j]@[k]) as int],
            {
                if !done[i] {
                    let reqs = &all[i];
                    proof {
                        lemma_found_positions(*self, node_of(*self, self.nodes@[i as int].id).requires@);
                        assert forall|m: int| 0 <= m < reqs@.len() implies (#[trigger] reqs@[m]) < n by {
                            assert(reqs@[m] == found_positions(*self, node_of(*self, self.nodes@[i as int].id).requires@)[m]);
                        }
                    }
                    let mut ready = true;
                    let mut k: usize = 0;
                    while ready && k < reqs.len()
                        invariant
                            reqs@ == all@[i as int]@,
                            k <= reqs@.len(),
                            done@.len() == n,
                            required_positions_ok(*self, all@),
                            n == self.nodes@.len(),
                            forall|m: int| 0 <= m < reqs@.len() ==> (#[trigger] reqs@[m]) < n,
                            ready ==> forall|m: int| 0 <= m < k ==> done@[(#[trigger] reqs@[m]) as int],
                            !ready ==> exists|m: int| 0 <= m < reqs@.len() && !done@[(#[trigger] reqs@[m]) as int],
                        decreases reqs.len() - k + if ready { 1int } else { 0int },
                    {
                        if !done[reqs[k]] {
                            ready = false;
                        } else {
                            k = k + 1;
                        }
                    }
                    if ready {
                        let ghost old_done = done@;
                        let ghost old_rank = rank_of;
                        proof {
                            lemma_count_true_set(done@, i as int);
                            lemma_count_true(done@);
                            lemma_count_true(done@.update(i as int, true));
                            rank_of = rank_of.update(i as int, count as nat);
                        }
                        done.set(i, true);
                        count = count + 1;
                        progress = true;
                        proof {
                            assert forall|j: int, k: int|
                                0 <= j < n && done@[j] && 0 <= k < all@[j]@.len() implies {
                                    &&& done@[(#[trigger] all@[j]@[k]) as int]
                                    &&& rank_of[all@[j]@[k] as int] < rank_of[j]
                                } by {
                                let q = all@[j]@[k];
                                if j == i {
                                    assert(reqs@[k] == q);
                                    assert(old_done[q as int]);
                                    assert(q != i);
                                    assert(old_rank[q as int] < count - 1);
                                    assert(rank_of[q as int] == old_rank[q as int]);
                                    assert(rank_of[j] == count - 1);
                                } else {
                                    lemma_found_positions(*self, node_of(*self, self.nodes@[j].id).requires@);
                                    assert(q == found_positions(*self, node_of(*self, self.nodes@[j].id).requires@)[k]);
                                    assert(q < n);
                                    assert(old_done[j]);
                                    assert(old_done[q as int]);
                                    assert(q != i);
                                    assert(rank_of[q as int] == old_rank[q as int]);
                                    assert(rank_of[j] == old_rank[j]);
                                }
                                assert(done@[q as int]);
                            }
                        }
                    }
                }
            }
        }
        proof {
            lemma_count_true(done@);
        }
        if count == n {
            proof {
                assert(forall|i: int| 0 <= i < n ==> done@[i]);
                let rank = |id: u64| rank_of[first_pos(node_ids(self.nodes@), id) as int];
                assert forall|id: u64| #[trigger] has_node(*self, id) implies rank(id) < self.nodes@.len() by {
                    let p = first_pos(node_ids(self.nodes@), id) as int;
                    assert(done@[p]);
                }
                assert forall|id: u64, r: u64|
                    has_node(*self, id) && node_of(*self, id).requires@.contains(r) && has_node(*self, r)
                    implies rank(r) < rank(id) by {
                    let p = first_pos(node_ids(self.nodes@), id);
                    lemma_first_pos(node_ids(self.nodes@), id);
                    assert(node_ids(self.nodes@)[p as int] == id);
                    let reqs = node_of(*self, id).requires@;
                    lemma_found_positions(*self, reqs);
                    let q = first_pos(node_ids(self.nodes@), r) as usize;
                    assert(all@[p as int]@.contains(q));
                    let k = choose|k: int| 0 <= k < all@[p as int]@.len() && all@[p as int]@[k] == q;
                    assert(done@[p as int]);
                }
                assert(ranked(*self, rank));
            }
            true
        } else {
            proof {
                let i = choose|i: int| 0 <= i < n && !done@[i];
                assert forall|rank: spec_fn(u64) -> nat| !ranked(*self, rank) by {
                    if ranked(*self, rank) {
                        lemma_blocked_unranked(*self, all@, done@, rank, rank(self.nodes@[i].id) + 1);
                    }
                }
            }
            false
        }
    }
}

proof fn lemma_count_true_zero(s: Seq<bool>)
    requires
        forall|i: int| 0 <= i < s.len() ==> !s[i],
    ensures
        count_true(s) == 0,
    decreases s.len(),
{
    if s.len() > 0 {
        assert forall|i: int| 0 <= i < s.drop_last().len() implies !s.drop_last()[i] by {
            assert(s.drop_last()[i] == s[i]);
        }
        lemma_count_true_zero(s.drop_last());
    }
}


/// The level of a step with at most `fuel` levels below it: 0 for a step
/// that needs nothing, else one more than its highest existing prerequisite.
pub open spec fn level_fuel(g: Goal, id: u64, fuel: nat) -> nat
    decreases fuel, 0nat,
{
    if fuel == 0 || !has_node(g, id) {
        0
    } else {
        req_max(g, node_of(g, id).requires@, (fuel - 1) as nat)
    }
}

/// The highest `level + 1` among the existing steps that `reqs` name, or 0.
pub open spec fn req_max(g: Goal, reqs: Seq<u64>, fuel: nat) -> nat
    decreases fuel, reqs.len(),
{
    if reqs.len() == 0 {
        0
    } else {
        let rest = req_max(g, reqs.drop_last(), fuel);
        let here = if has_node(g, reqs.last()) {
            level_fuel(g, reqs.last(), fuel) + 1
        } else {
            0
        };
        if here > rest {
            here
        } else {
            rest
        }
    }
}

/// The row of a step in the goal's tree: 0 for a step that needs nothing,
/// else one below its deepest prerequisite (for goals without cycles, see
/// `law_level_follows_prerequisites`).
pub open spec fn level(g: Goal, id: u64) -> nat {
    level_fuel(g, id, g.nodes@.len())
}

/// `req_max` over node positions instead of ids.
pub open spec fn pos_max(g: Goal, ps: Seq<usize>, fuel: nat) -> nat
    decreases ps.len(),
{
    if ps.len() == 0 {
        0
    } else {
        let rest = pos_max(g, ps.drop_last(), fuel);
        let here = level_fuel(g, g.nodes@[ps.last() as int].id, fuel) + 1;
        if here > rest {
            here
        } else {
            rest
        }
    }
}

proof fn lemma_req_max_positions(g: Goal, reqs: Seq<u64>, fuel: nat)
    ensures
        req_max(g, reqs, fuel) == pos_max(g, found_positions(g, reqs), fuel),
    decreases reqs.len(),
{
    if reqs.len() > 0 {
        lemma_req_max_positions(g, reqs.drop_last(), fuel);
        let fr = found_positions(g, reqs.drop_last());
        if has_node(g, reqs.last()) {
            lemma_first_pos(node_ids(g.nodes@), reqs.last());
            let p = first_pos(node_ids(g.nodes@), reqs.last());
            assert(g.nodes.len() == g.nodes@.len());
            assert(node_ids(g.nodes@)[p as int] == g.nodes@[p as int].id);
            assert(found_positions(g, reqs).drop_last() == fr);
        }
    }
}

proof fn lemma_level_bound(g: Goal, id: u64, fuel: nat)
    ensures
        level_fuel(g, id, fuel) <= fuel,
    decreases fuel, 0nat,
{
    if fuel > 0 && has_node(g, id) {
        lemma_req_max_bound(g, node_of(g, id).requires@, (fuel - 1) as nat);
    }
}

proof fn lemma_req_max_bound(g: Goal, reqs: Seq<u64>, fuel: nat)
    ensures
        req_max(g, reqs, fuel) <= fuel + 1,
    decreases fuel, reqs.len(),
{
    if reqs.len() > 0 {
        lemma_req_max_bound(g, reqs.drop_last(), fuel);
        lemma_level_bound(g, reqs.last(), fuel);
    }
}

/// One more level of unfolding, from the levels of `prev`.
fn level_round(g: &Goal, all: &Vec<Vec<usize>>, prev: &Vec<usize>, Ghost(f): Ghost<nat>) -> (next: Vec<usize>)
    requires
        required_positions_ok(*g, all@),
        prev@.len() == g.nodes@.len(),
        f < g.nodes@.len(),
        forall|i: int| 0 <= i < prev@.len() ==> prev@[i] == level_fuel(*g, g.nodes@[i].id, f),
    ensures
        next@.len() == g.nodes@.len(),
        forall|i: int| 0 <= i < next@.len() ==> next@[i] == level_fuel(*g, g.nodes@[i].id, f + 1),
{
    let n = g.nodes.len();
    let mut next: Vec<usize> = Vec::new();
    for i in 0..n
        invariant
            n == g.nodes@.len(),
            required_positions_ok(*g, all@),
            prev@.len() == n,
            f < n,
            forall|j: int| 0 <= j < prev@.len() ==> prev@[j] == level_fuel(*g, g.nodes@[j].id, f),
            next@.len() == i,
            forall|j: int| 0 <= j < i ==> next@[j] == level_fuel(*g, g.nodes@[j].id, f + 1),
    {
        let ps = &all[i];
        let ghost reqs = node_of(*g, g.nodes@[i as int].id).requires@;
        proof {
            lemma_found_positions(*g, reqs);
        }
        let mut m: usize = 0;
        for k in 0..ps.len()
            invariant
                ps@ == found_positions(*g, reqs),
                n == g.nodes@.len(),
                prev@.len() == n,
                f < n,
                forall|j: int| 0 <= j < prev@.len() ==> prev@[j] == level_fuel(*g, g.nodes@[j].id, f),
                forall|j: int| 0 <= j < ps@.len() ==> (#[trigger] ps@[j]) < n,
                m == pos_max(*g, ps@.take(k as int), f),
                m <= f + 1,
        {
            let q = ps[k];
            proof {
                lemma_level_bound(*g, g.nodes@[q as int].id, f);
                assert(ps@.take(k + 1).drop_last() == ps@.take(k as int));
            }
            let c = prev[q] + 1;
            if c > m {
                m = c;
            }
        }
        proof {
            assert(ps@.take(ps@.len() as int) == ps@);
            lemma_req_max_positions(*g, reqs, f);
            lemma_first_pos(node_ids(g.nodes@), g.nodes@[i as int].id);
            assert(node_ids(g.nodes@)[i as int] == g.nodes@[i as int].id);
            assert(has_node(*g, g.nodes@[i as int].id));
        }
        next.push(m);
    }
    next
}

/// The level of every node, in node order.
fn levels(g: &Goal) -> (lv: Vec<usize>)
    ensures
        lv@.len() == g.nodes@.len(),
        forall|i: int| 0 <= i < lv@.len() ==> lv@[i] == level(*g, g.nodes@[i].id),
{
    let all = required_positions(g);
    let n = g.nodes.len();
    let mut lv: Vec<usize> = Vec::new();
    for i in 0..n
        invariant
            lv@.len() == i,
            forall|j: int| 0 <= j < i ==> lv@[j] == 0,
    {
        lv.push(0);
    }
    for f in 0..n
        invariant
            n == g.nodes@.len(),
            required_positions_ok(*g, all@),
            lv@.len() == n,
            forall|i: int| 0 <= i < n ==> lv@[i] == level_fuel(*g, g.nodes@[i].id, f as nat),
    {
        lv = level_round(g, &all, &lv, Ghost(f as nat));
    }
    lv
}

/// The ids of the nodes of `prefix` whose level is `l`, in order.
pub open spec fn level_group(g: Goal, prefix: Seq<super::GoalNode>, l: nat) -> Seq<u64>
    decreases prefix.len(),
{
    if prefix.len() == 0 {
        seq![]
    } else {
        let rest = level_group(g, prefix.drop_last(), l);
        if level(g, prefix.last().id) == l {
            rest.push(prefix.last().id)
        } else {
            rest
        }
    }
}

/// One more than the highest level among the nodes of `prefix`; 0 when there are none.
pub open spec fn level_count(g: Goal, prefix: Seq<super::GoalNode>) -> nat
    decreases prefix.len(),
{
    if prefix.len() == 0 {
        0
    } else {
        let rest = level_count(g, prefix.drop_last());
        let here = level(g, prefix.last().id) + 1;
        if here > rest {
            here
        } else {
            rest
        }
    }
}

impl Goal {
    /// The rows of the goal's tree: row `l` holds, in node order, the ids of
    /// the nodes of level `l`.
    pub fn layout_levels(&self) -> (groups: Vec<Vec<u64>>)
        requires
            self.nodes@.len() < usize::MAX,
        ensures
            groups@.len() == level_count(*self, self.nodes@),
            forall|l: int|
                0 <= l < groups@.len() ==> (#[trigger] groups@[l])@ == level_group(
                    *self,
                    self.nodes@,
                    l as nat,
                ),
    {
        let lv = levels(self);
        let n = self.nodes.len();
        let mut count: usize = 0;
        for i in 0..n
            invariant
                n == self.nodes@.len(),
                n < usize::MAX,
                lv@.len() == n,
                forall|j: int| 0 <= j < n ==> lv@[j] == level(*self, self.nodes@[j].id),
                count == level_count(*self, self.nodes@.take(i as int)),
                count <= n + 1,
        {
            proof {
                lemma_level_bound(*self, self.nodes@[i as int].id, n as nat);
                assert(self.nodes@.take(i + 1).drop_last() == self.nodes@.take(i as int));
            }
            if lv[i] + 1 > count {
                count = lv[i] + 1;
            }
        }
        assert(self.nodes@.take(n as int) == self.nodes@);
        let mut groups: Vec<Vec<u64>> = Vec::new();
        for l in 0..count
            invariant
                n == self.nodes@.len(),
                lv@.len() == n,
                forall|j: int| 0 <= j < n ==> lv@[j] == level(*self, self.nodes@[j].id),
                groups@.len() == l,
                forall|m: int|
                    0 <= m < l ==> (#[trigger] groups@[m])@ == level_group(*self, self.nodes@, m as nat),
        {
            let mut group: Vec<u64> = Vec::new();
            for i in 0..n
                invariant
                    n == self.nodes@.len(),
                    lv@.len() == n,
                    forall|j: int| 0 <= j < n ==> lv@[j] == level(*self, self.nodes@[j].id),
                    group@ == level_group(*self, self.nodes@.take(i as int), l as nat),
            {
                assert(self.nodes@.take(i + 1).drop_last() == self.nodes@.take(i as int));
                if lv[i] == l {
                    group.push(self.nodes[i].id);
                }
            }
            assert(self.nodes@.take(n as int) == self.nodes@);
            groups.push(group);
        }
        groups
    }
}

/// One more than the highest level among the existing steps that `reqs`
/// name, or 0 when they name none.
pub open spec fn level_below(g: Goal, reqs: Seq<u64>) -> nat
    decreases reqs.len(),
{
    if reqs.len() == 0 {
        0
    } else {
        let rest = level_below(g, reqs.drop_last());
        let here = if has_node(g, reqs.last()) {
            level(g, reqs.last()) + 1
        } else {
            0
        };
        if here > rest {
            here
        } else {
            rest
        }
    }
}

proof fn lemma_req_max_same(g: Goal, reqs: Seq<u64>, fa: nat, fb: nat)
    requires
        forall|k: int|
            0 <= k < reqs.len() && has_node(g, reqs[k]) ==> level_fuel(g, #[trigger] reqs[k], fa) == level_fuel(
                g,
                reqs[k],
                fb,
            ),
    ensures
        req_max(g, reqs, fa) == req_max(g, reqs, fb),
    decreases reqs.len(),
{
    if reqs.len() > 0 {
        assert forall|k: int|
            0 <= k < reqs.drop_last().len() && has_node(g, reqs.drop_last()[k]) implies level_fuel(
            g,
            #[trigger] reqs.drop_last()[k],
            fa,
        ) == level_fuel(g, reqs.drop_last()[k], fb) by {
            assert(reqs.drop_last()[k] == reqs[k]);
        }
        lemma_req_max_same(g, reqs.drop_last(), fa, fb);
        assert(reqs.last() == reqs[reqs.len() - 1]);
    }
}

proof fn lemma_req_max_level(g: Goal, reqs: Seq<u64>, f: nat)
    requires
        forall|k: int| 0 <= k < reqs.len() && has_node(g, reqs[k]) ==> level_fuel(g, #[trigger] reqs[k], f) == level(g, reqs[k]),
    ensures
        req_max(g, reqs, f) == level_below(g, reqs),
        forall|k: int| 0 <= k < reqs.len() && has_node(g, reqs[k]) ==> level(g, #[trigger] reqs[k]) < level_below(g, reqs),
    decreases reqs.len(),
{
    if reqs.len() > 0 {
        assert forall|k: int| 0 <= k < reqs.drop_last().len() && has_node(g, reqs.drop_last()[k]) implies level_fuel(
            g,
            #[trigger] reqs.drop_last()[k],
            f,
        ) == level(g, reqs.drop_last()[k]) by {
            assert(reqs.drop_last()[k] == reqs[k]);
        }
        lemma_req_max_level(g, reqs.drop_last(), f);
        assert(reqs.last() == reqs[reqs.len() - 1]);
        assert forall|k: int| 0 <= k < reqs.len() && has_node(g, reqs[k]) implies level(g, #[trigger] reqs[k]) < level_below(g, reqs) by {
            if k < reqs.len() - 1 {
                assert(reqs.drop_last()[k] == reqs[k]);
            }
        }
    }
}

/// Under a ranking, the unfolded level of a step of rank below `n` no longer
/// changes once the fuel exceeds its rank.
proof fn lemma_level_settles(g: Goal, rank: spec_fn(u64) -> nat, n: nat)
    requires
        ranked(g, rank),
    ensures
        forall|id: u64, f1: nat, f2: nat|
            has_node(g, id) && rank(id) < n && f1 > rank(id) && f2 > rank(id) ==> #[trigger] level_fuel(g, id, f1)
                == #[trigger] level_fuel(g, id, f2),
    decreases n,
{
    if n > 0 {
        lemma_level_settles(g, rank, (n - 1) as nat);
        assert forall|id: u64, f1: nat, f2: nat|
            has_node(g, id) && rank(id) < n && f1 > rank(id) && f2 > rank(id) implies #[trigger] level_fuel(g, id, f1)
                == #[trigger] level_fuel(g, id, f2) by {
            let reqs = node_of(g, id).requires@;
            assert forall|k: int| 0 <= k < reqs.len() && has_node(g, reqs[k]) implies level_fuel(
                g,
                #[trigger] reqs[k],
                (f1 - 1) as nat,
            ) == level_fuel(g, reqs[k], (f2 - 1) as nat) by {
                assert(reqs.contains(reqs[k]));
                assert(rank(reqs[k]) < rank(id));
            }
            lemma_req_max_same(g, reqs, (f1 - 1) as nat, (f2 - 1) as nat);
        }
    }
}

/// In a goal without cycles a step's row is one below its deepest existing
/// prerequisite, and row 0 when it needs none; so every step sits below
/// each of its prerequisites.
pub proof fn law_level_follows_prerequisites(g: Goal, id: u64)
    requires
        acyclic(g),
        has_node(g, id),
    ensures
        level(g, id) == level_below(g, node_of(g, id).requires@),
        forall|r: u64| node_of(g, id).requires@.contains(r) && has_node(g, r) ==> #[trigger] level(g, r) < level(g, id),
{
    let rank = choose|rank: spec_fn(u64) -> nat| ranked(g, rank);
    let n = g.nodes@.len();
    lemma_level_settles(g, rank, n);
    let reqs = node_of(g, id).requires@;
    assert forall|k: int| 0 <= k < reqs.len() && has_node(g, reqs[k]) implies level_fuel(g, #[trigger] reqs[k], (n - 1) as nat)
        == level(g, reqs[k]) by {
        assert(reqs.contains(reqs[k]));
        assert(rank(reqs[k]) < rank(id));
        assert(rank(id) < n);
        assert(level_fuel(g, reqs[k], (n - 1) as nat) == level_fuel(g, reqs[k], n));
    }
    lemma_req_max_level(g, reqs, (n - 1) as nat);
    assert forall|r: u64| node_of(g, id).requires@.contains(r) && has_node(g, r) implies #[trigger] level(g, r) < level(g, id) by {
        let k = choose|k: int| 0 <= k < reqs.len() && reqs[k] == r;
        assert(has_node(g, reqs[k]));
    }
}

} // verus!
