//! Bidirectional Dijkstra: a cost-ordered forward search from the initial
//! state and a cost-ordered backward search by regression from the goal,
//! recording the cheapest meeting of a settled state and a settled subgoal.

use vstd::prelude::*;
use crate::error::MiniplanError;
use crate::plan::{Plan, run_ops, solves, step, lemma_run_push, lemma_runs_stay_inside};
use crate::queue::{MinQueue, moved, origin};
use crate::search::{
    PlannerCapabilities,
    Planner, SearchLimits, SearchOutcome, SearchStats, now, elapsed_since, duration_at_least,
    plan_outcome_sound, solvable,
};
use crate::search::bfs::ids_valid;
use crate::search::regression::{
    no_conditional_effects, has_conditional_effects, is_relevant, is_consistent, regress_subgoal,
    regress_pos, regress_neg, leads_to_goal, lemma_regress, forward_links, backward_links,
    meet_plan, consistent, searching, relevant,
};
use crate::table::{KeyMap, Subgoal, TableKey, cost_sum, lemma_insert_measure};
use crate::plan::capped;
use crate::task::{
    OpId, State, Task, applicable_in, successor, satisfies_goal, fits, lemma_effects_fit,
    operator_fits, lemma_lookup_after_insert, state_space, lemma_distinct_seqs_bound, lemma_distinct_pairs_bound,
};

verus! {

/// A forward queue entry: a cost, a state, and the settled entry and
/// operator it was reached by (none for the initial state).
pub struct ForwardEntry {
    pub g: u64,
    pub state: State,
    pub parent: Option<(usize, OpId)>,
}

/// A backward queue entry: a cost, a subgoal, and the settled subgoal and
/// operator it was regressed from (none for the goal itself).
pub struct BackwardEntry {
    pub g: u64,
    pub subgoal: Subgoal,
    pub parent: Option<(usize, OpId)>,
}

/// One direction of the forward search: its queue, the cheapest known cost
/// of each state, and the settled states with their costs and parent links.
pub struct ForwardSide {
    pub open: MinQueue<ForwardEntry>,
    pub best_g: KeyMap<State, u64>,
    pub states: Vec<State>,
    pub g: Vec<u64>,
    pub parent: Vec<Option<(usize, OpId)>>,
    pub paths: Ghost<Seq<Seq<OpId>>>,
}

/// The backward search: its queue, the cheapest known cost of each subgoal,
/// and the settled subgoals with their costs and parent links.
pub struct BackwardSide {
    pub open: MinQueue<BackwardEntry>,
    pub best_g: KeyMap<Subgoal, u64>,
    pub goals: Vec<Subgoal>,
    pub g: Vec<u64>,
    pub parent: Vec<Option<(usize, OpId)>>,
    pub paths: Ghost<Seq<Seq<OpId>>>,
}

/// A forward queue entry is the initial state, or one operator step from a
/// settled state.
pub open spec fn forward_entry_ok(task: &Task, states: Seq<State>, e: ForwardEntry) -> bool {
    &&& e.state@.len() == task.facts@.len()
    &&& match e.parent {
        None => e.state@ == task.init@,
        Some((p, op)) => p < states.len() && step(task, states[p as int]@, op) == Some(e.state@),
    }
}

/// A backward queue entry is the goal, or the regression of a settled
/// subgoal through an operator consistent with it.
pub open spec fn backward_entry_ok(task: &Task, goals: Seq<Subgoal>, e: BackwardEntry) -> bool {
    match e.parent {
        None => e.subgoal.pos@ == task.goal_pos@ && e.subgoal.neg@ == task.goal_neg@,
        Some((p, op)) => {
            &&& p < goals.len()
            &&& op.0 < task.operators@.len()
            &&& consistent(task.operators@[op.0 as int], goals[p as int].pos@, goals[p as int].neg@)
            &&& e.subgoal.pos@ == regress_pos(goals[p as int].pos@, task.operators@[op.0 as int], task.facts@.len())
            &&& e.subgoal.neg@ == regress_neg(goals[p as int].neg@, task.operators@[op.0 as int], task.facts@.len())
        },
    }
}

/// The state has a known cost.
pub open spec fn known_state(m: &KeyMap<State, u64>, s: Seq<bool>) -> bool {
    m.lookup(s) is Some
}

/// The subgoal has a known cost.
pub open spec fn known_subgoal(m: &KeyMap<Subgoal, u64>, sg: (Seq<bool>, Seq<bool>)) -> bool {
    m.lookup(sg) is Some
}

impl ForwardSide {
    /// Settled entries are reached along their paths; queue entries are
    /// well founded; every state of known cost is settled or queued at that
    /// cost.
    pub open spec fn ok(&self, task: &Task) -> bool {
        &&& self.best_g.wf()
        &&& self.states@.len() == self.g@.len()
        &&& self.states@.len() == self.parent@.len()
        &&& forward_links(self.parent@, self.paths@)
        &&& forall|i: int|
            0 <= i < self.states@.len() ==> {
                &&& run_ops(task, task.init@, #[trigger] self.paths@[i]) == Some(self.states@[i]@)
                &&& ids_valid(task, self.paths@[i])
                &&& self.states@[i]@.len() == task.facts@.len()
            }
        &&& forall|q: int| 0 <= q < self.open.entries@.len() ==> forward_entry_ok(task, self.states@, (#[trigger] self.open.entries@[q]).1)
        &&& forall|q: int| 0 <= q < self.open.entries@.len() ==> known_state(&self.best_g, (#[trigger] self.open.entries@[q]).1.state@)
        &&& forall|q: int| 0 <= q < self.open.entries@.len() ==> (#[trigger] self.open.entries@[q]).0 == self.open.entries@[q].1.g as u128
        &&& forall|s: Seq<bool>|
            #[trigger] known_state(&self.best_g, s) ==> (exists|i: int| 0 <= i < self.states@.len() && (#[trigger] self.states@[i])@ == s)
                || (exists|q: int| 0 <= q < self.open.entries@.len() && (#[trigger] self.open.entries@[q]).1.state@ == s
                    && self.best_g.lookup(s) == Some(self.open.entries@[q].1.g))
        &&& known_state(&self.best_g, task.init@)
    }

    /// The successors of the first `upto` settled states have known costs.
    pub open spec fn closed_upto(&self, task: &Task, upto: int) -> bool {
        forall|i: int, k: int|
            0 <= i < upto && 0 <= k < task.operators@.len() && applicable_in((#[trigger] self.states@[i])@, #[trigger] task.operators@[k])
                ==> known_state(&self.best_g, successor(self.states@[i]@, task.operators@[k]))
    }

    pub fn new(task: &Task) -> (f: Self)
        requires
            task.well_formed(),
        ensures
            f.ok(task),
            f.states@.len() == 0,
            f.open.entries@.len() > 0,
    {
        let mut open: MinQueue<ForwardEntry> = MinQueue::new();
        open.push(0, ForwardEntry { g: 0, state: task.init.clone(), parent: None });
        let mut best_g: KeyMap<State, u64> = KeyMap::new();
        best_g.insert(task.init.clone(), 0);
        let f = ForwardSide { open, best_g, states: Vec::new(), g: Vec::new(), parent: Vec::new(), paths: Ghost(Seq::empty()) };
        proof {
            assert(f.best_g.keys()[0] == task.init@);
            assert(f.best_g.position(task.init@) == Some(0int));
            assert(f.open.entries@[0].1.state@ == task.init@);
        }
        f
    }

    /// Pops the cheapest queue entry; settles it unless a cheaper cost is
    /// known for its state. Returns the new settled position and its cost.
    pub fn settle(&mut self, task: &Task) -> (r: Option<(usize, u64)>)
        requires
            task.well_formed(),
            old(self).ok(task),
            old(self).open.entries@.len() > 0,
        ensures
            final(self).ok(task),
            final(self).best_g == old(self).best_g,
            final(self).open.entries@.len() == old(self).open.entries@.len() - 1,
            match r {
                None => {
                    &&& final(self).states@ == old(self).states@
                    &&& final(self).g@ == old(self).g@
                },
                Some((i, g)) => {
                    &&& i == old(self).states@.len()
                    &&& final(self).states@.len() == i + 1
                    &&& final(self).states@.drop_last() == old(self).states@
                    &&& final(self).g@ == old(self).g@.push(g)
                },
            },
    {
        let ghost before = self.open.entries@;
        let popped = self.open.pop_min();
        let (_, node) = popped.unwrap();
        let ghost nq = before.len() as int;
        let ghost wi = choose|i: int|
            0 <= i < nq && before[i] == (popped->0) && (forall|j: int|
                0 <= j < nq && j != i ==> self.open.entries@[moved(i, nq, j)] == before[j]) && (forall|j: int|
                0 <= j < nq - 1 ==> self.open.entries@[j] == before[origin(i, nq, j)] && origin(i, nq, j) != i);
        proof {
            assert(forward_entry_ok(task, self.states@, before[wi].1));
            assert forall|q: int| 0 <= q < self.open.entries@.len() implies forward_entry_ok(task, self.states@, (#[trigger] self.open.entries@[q]).1)
                && known_state(&self.best_g, self.open.entries@[q].1.state@)
                && self.open.entries@[q].0 == self.open.entries@[q].1.g as u128 by {
                assert(self.open.entries@[q] == before[origin(wi, nq, q)]);
            }
        }
        let stale = match self.best_g.get(&node.state) {
            Some(b) => node.g > *b,
            None => false,
        };
        if stale {
            proof {
                assert forall|s: Seq<bool>| #[trigger] known_state(&self.best_g, s) implies (exists|i: int|
                    0 <= i < self.states@.len() && (#[trigger] self.states@[i])@ == s) || (exists|q: int|
                    0 <= q < self.open.entries@.len() && (#[trigger] self.open.entries@[q]).1.state@ == s
                        && self.best_g.lookup(s) == Some(self.open.entries@[q].1.g)) by {
                    if !(exists|i: int| 0 <= i < self.states@.len() && (#[trigger] self.states@[i])@ == s) {
                        let q = choose|q: int| 0 <= q < nq && (#[trigger] before[q]).1.state@ == s
                            && self.best_g.lookup(s) == Some(before[q].1.g);
                        assert(q != wi);
                        assert(self.open.entries@[moved(wi, nq, q)] == before[q]);
                    }
                }
            }
            return None;
        }
        let i = self.states.len();
        let g = node.g;
        let ghost old_states = self.states@;
        let ghost np: Seq<OpId> = match node.parent {
            None => Seq::<OpId>::empty(),
            Some((p, op)) => self.paths@[p as int].push(op),
        };
        proof {
            match node.parent {
                None => {},
                Some((p, op)) => {
                    lemma_run_push(task, task.init@, self.paths@[p as int], op);
                    assert(run_ops(task, task.init@, self.paths@[p as int]) == Some(self.states@[p as int]@));
                },
            }
        }
        self.states.push(node.state);
        self.g.push(g);
        self.parent.push(node.parent);
        self.paths = Ghost(self.paths@.push(np));
        proof {
            assert(self.states@.drop_last() =~= old_states);
            assert forall|ii: int| 0 <= ii < self.states@.len() implies {
                &&& run_ops(task, task.init@, #[trigger] self.paths@[ii]) == Some(self.states@[ii]@)
                &&& ids_valid(task, self.paths@[ii])
                &&& self.states@[ii]@.len() == task.facts@.len()
            } by {
                if ii < old_states.len() {
                    assert(self.paths@[ii] == self.paths@.drop_last()[ii]);
                    assert(self.states@[ii] == old_states[ii]);
                }
            }
            assert forall|ii: int| 0 <= ii < self.parent@.len() implies match #[trigger] self.parent@[ii] {
                None => self.paths@[ii] == Seq::<OpId>::empty(),
                Some((p, o)) => p < ii && self.paths@[ii] == self.paths@[p as int].push(o),
            } by {
                if ii < old_states.len() {
                    assert(self.parent@[ii] == self.parent@.drop_last()[ii]);
                    assert(self.paths@[ii] == self.paths@.drop_last()[ii]);
                }
            }
            assert forall|q: int| 0 <= q < self.open.entries@.len() implies forward_entry_ok(task, self.states@, (#[trigger] self.open.entries@[q]).1) by {
                let e = self.open.entries@[q].1;
                assert(forward_entry_ok(task, old_states, e));
                match e.parent {
                    None => {},
                    Some((p, op)) => {
                        assert(self.states@[p as int] == old_states[p as int]);
                    },
                }
            }
            assert(self.states@[i as int]@ == before[wi].1.state@);
            assert forall|s: Seq<bool>| #[trigger] known_state(&self.best_g, s) implies (exists|ii: int|
                0 <= ii < self.states@.len() && (#[trigger] self.states@[ii])@ == s) || (exists|q: int|
                0 <= q < self.open.entries@.len() && (#[trigger] self.open.entries@[q]).1.state@ == s
                    && self.best_g.lookup(s) == Some(self.open.entries@[q].1.g)) by {
                if s != before[wi].1.state@ {
                    if exists|ii: int| 0 <= ii < old_states.len() && (#[trigger] old_states[ii])@ == s {
                        let ii = choose|ii: int| 0 <= ii < old_states.len() && (#[trigger] old_states[ii])@ == s;
                        assert(self.states@[ii] == old_states[ii]);
                    } else {
                        let q = choose|q: int| 0 <= q < nq && (#[trigger] before[q]).1.state@ == s
                            && self.best_g.lookup(s) == Some(before[q].1.g);
                        assert(q != wi);
                        assert(self.open.entries@[moved(wi, nq, q)] == before[q]);
                    }
                }
            }
        }
        Some((i, g))
    }

    /// Generates the successors of the settled state at `i` at cost `g`,
    /// queueing each whose cost improves on the known one.
    pub fn expand(&mut self, task: &Task, i: usize, g: u64, stats: &mut SearchStats)
        requires
            task.well_formed(),
            old(self).ok(task),
            i + 1 == old(self).states@.len(),
            old(self).closed_upto(task, i as int),
        ensures
            final(self).ok(task),
            final(self).closed_upto(task, i + 1),
            final(self).states@ == old(self).states@,
            final(self).g@ == old(self).g@,
            final(self).paths@ == old(self).paths@,
            final(self).parent@ == old(self).parent@,
            final(stats).nodes_expanded == old(stats).nodes_expanded,
            final(stats).plan_cost == old(stats).plan_cost,
            final(stats).plan_length == old(stats).plan_length,
            final(self).best_g.keys().len() >= old(self).best_g.keys().len(),
            final(self).best_g.keys().len() == old(self).best_g.keys().len() ==> cost_sum(final(self).best_g.values()) <= cost_sum(
                old(self).best_g.values(),
            ) && (cost_sum(final(self).best_g.values()) < cost_sum(old(self).best_g.values())
                || final(self).open.entries@.len() == old(self).open.entries@.len()),
    {
        let ghost k0 = self.best_g.keys().len();
        let ghost s0 = cost_sum(self.best_g.values());
        let ghost o0 = self.open.entries@.len();
        let n = task.num_facts();
        let nops = task.operators.len();
        proof {
            assert(run_ops(task, task.init@, self.paths@[i as int]) == Some(self.states@[i as int]@));
        }
        for k in 0..nops
            invariant
                k0 == old(self).best_g.keys().len(),
                s0 == cost_sum(old(self).best_g.values()),
                o0 == old(self).open.entries@.len(),
                self.best_g.keys().len() >= k0,
                self.best_g.keys().len() == k0 ==> cost_sum(self.best_g.values()) <= s0 && (cost_sum(self.best_g.values()) < s0
                    || self.open.entries@.len() == o0),
                nops == task.operators@.len(),
                n == task.facts@.len(),
                task.well_formed(),
                self.ok(task),
                i + 1 == self.states@.len(),
                self.states@ == old(self).states@,
                self.g@ == old(self).g@,
                self.paths@ == old(self).paths@,
                self.parent@ == old(self).parent@,
                self.states@[i as int]@.len() == n,
                self.closed_upto(task, i as int),
                forall|kk: int| 0 <= kk < k && applicable_in(self.states@[i as int]@, #[trigger] task.operators@[kk])
                    ==> known_state(&self.best_g, successor(self.states@[i as int]@, task.operators@[kk])),
                stats.nodes_expanded == old(stats).nodes_expanded,
                stats.plan_cost == old(stats).plan_cost,
                stats.plan_length == old(stats).plan_length,
        {
            let op = &task.operators[k];
            let state = &self.states[i];
            if state.applicable(op) {
                proof {
                    assert(operator_fits(task.operators@[k as int], n as nat));
                    lemma_effects_fit(state@, *op, n as nat);
                }
                let next = state.apply(op);
                let new_g = g.saturating_add(op.cost as u64);
                let better = match self.best_g.get(&next) {
                    Some(b) => new_g < *b,
                    None => true,
                };
                if better {
                    let ghost old_map = self.best_g;
                    let ghost prevq = self.open.entries@;
                    self.best_g.insert(next.clone(), new_g);
                    proof {
                        lemma_lookup_after_insert(&old_map, &self.best_g, next@, new_g);
                        lemma_insert_measure(&old_map, &self.best_g, next@, new_g);
                    }
                    stats.nodes_generated = stats.nodes_generated.saturating_add(1);
                    let entry = ForwardEntry { g: new_g, state: next, parent: Some((i, op.id)) };
                    proof {
                        assert(step(task, self.states@[i as int]@, op.id) == Some(entry.state@));
                    }
                    self.open.push(new_g as u128, entry);
                    proof {
                        let nq = prevq.len() as int;
                        assert forall|q: int| 0 <= q < self.open.entries@.len() implies forward_entry_ok(task, self.states@, (#[trigger] self.open.entries@[q]).1)
                            && known_state(&self.best_g, self.open.entries@[q].1.state@)
                            && self.open.entries@[q].0 == self.open.entries@[q].1.g as u128 by {
                            if q < nq {
                                assert(self.open.entries@[q] == prevq[q]);
                                assert(known_state(&old_map, prevq[q].1.state@));
                            }
                        }
                        assert forall|s: Seq<bool>| #[trigger] known_state(&self.best_g, s) implies (exists|ii: int|
                            0 <= ii < self.states@.len() && (#[trigger] self.states@[ii])@ == s) || (exists|q: int|
                            0 <= q < self.open.entries@.len() && (#[trigger] self.open.entries@[q]).1.state@ == s
                                && self.best_g.lookup(s) == Some(self.open.entries@[q].1.g)) by {
                            if s == next@ {
                                assert(self.open.entries@[nq].1.state@ == s);
                            } else {
                                assert(known_state(&old_map, s));
                                if !(exists|ii: int| 0 <= ii < self.states@.len() && (#[trigger] self.states@[ii])@ == s) {
                                    let q = choose|q: int| 0 <= q < nq && (#[trigger] prevq[q]).1.state@ == s
                                        && old_map.lookup(s) == Some(prevq[q].1.g);
                                    assert(self.open.entries@[q] == prevq[q]);
                                }
                            }
                        }
                        assert forall|ii: int, kk: int|
                            0 <= ii < i && 0 <= kk < task.operators@.len() && applicable_in((#[trigger] self.states@[ii])@, #[trigger] task.operators@[kk])
                                implies known_state(&self.best_g, successor(self.states@[ii]@, task.operators@[kk])) by {
                            assert(known_state(&old_map, successor(self.states@[ii]@, task.operators@[kk])));
                        }
                        assert forall|kk: int| 0 <= kk < k + 1 && applicable_in(self.states@[i as int]@, #[trigger] task.operators@[kk])
                            implies known_state(&self.best_g, successor(self.states@[i as int]@, task.operators@[kk])) by {
                            if kk < k {
                                assert(known_state(&old_map, successor(self.states@[i as int]@, task.operators@[kk])));
                            }
                        }
                        assert(known_state(&self.best_g, task.init@)) by {
                            assert(known_state(&old_map, task.init@));
                        }
                    }
                }
            }
        }
    }
}

impl BackwardSide {
    /// Settled subgoals lead to the goal along their paths; queue entries are
    /// well founded; every subgoal of known cost is settled or queued at that
    /// cost.
    pub open spec fn ok(&self, task: &Task) -> bool {
        &&& self.best_g.wf()
        &&& self.goals@.len() == self.g@.len()
        &&& self.goals@.len() == self.parent@.len()
        &&& backward_links(self.parent@, self.paths@)
        &&& forall|j: int|
            0 <= j < self.goals@.len() ==> {
                &&& leads_to_goal(task, self.goals@[j].pos@, self.goals@[j].neg@, #[trigger] self.paths@[j])
                &&& ids_valid(task, self.paths@[j])
                &&& fits(self.goals@[j].pos@, task.facts@.len())
                &&& fits(self.goals@[j].neg@, task.facts@.len())
                &&& (self.goals@[j].pos@ == task.goal_pos@ && self.goals@[j].neg@ == task.goal_neg@)
                    || (self.goals@[j].pos@.len() == task.facts@.len() && self.goals@[j].neg@.len() == task.facts@.len())
            }
        &&& forall|q: int| 0 <= q < self.open.entries@.len() ==> backward_entry_ok(task, self.goals@, (#[trigger] self.open.entries@[q]).1)
        &&& forall|q: int| 0 <= q < self.open.entries@.len() ==> known_subgoal(&self.best_g, ((#[trigger] self.open.entries@[q]).1.subgoal.pos@, self.open.entries@[q].1.subgoal.neg@))
        &&& forall|q: int| 0 <= q < self.open.entries@.len() ==> (#[trigger] self.open.entries@[q]).0 == self.open.entries@[q].1.g as u128
        &&& forall|sg: (Seq<bool>, Seq<bool>)|
            #[trigger] known_subgoal(&self.best_g, sg) ==> (exists|j: int| 0 <= j < self.goals@.len()
                && ((#[trigger] self.goals@[j]).pos@, self.goals@[j].neg@) == sg)
                || (exists|q: int| 0 <= q < self.open.entries@.len()
                    && ((#[trigger] self.open.entries@[q]).1.subgoal.pos@, self.open.entries@[q].1.subgoal.neg@) == sg
                    && self.best_g.lookup(sg) == Some(self.open.entries@[q].1.g))
        &&& known_subgoal(&self.best_g, (task.goal_pos@, task.goal_neg@))
    }

    pub fn new(task: &Task) -> (b: Self)
        requires
            task.well_formed(),
        ensures
            b.ok(task),
            b.goals@.len() == 0,
            b.open.entries@.len() > 0,
    {
        let mut open: MinQueue<BackwardEntry> = MinQueue::new();
        let root = Subgoal { pos: task.goal_pos.clone(), neg: task.goal_neg.clone() };
        open.push(0, BackwardEntry { g: 0, subgoal: root.clone(), parent: None });
        let mut best_g: KeyMap<Subgoal, u64> = KeyMap::new();
        best_g.insert(root, 0);
        let b = BackwardSide { open, best_g, goals: Vec::new(), g: Vec::new(), parent: Vec::new(), paths: Ghost(Seq::empty()) };
        proof {
            assert(b.best_g.keys()[0] == (task.goal_pos@, task.goal_neg@));
            assert(b.best_g.position((task.goal_pos@, task.goal_neg@)) == Some(0int));
            assert(b.open.entries@[0].1.subgoal.pos@ == task.goal_pos@);
        }
        b
    }

    /// Pops the cheapest queue entry; settles it unless a cheaper cost is
    /// known for its subgoal. Returns the new settled position and its cost.
    pub fn settle(&mut self, task: &Task) -> (r: Option<(usize, u64)>)
        requires
            task.well_formed(),
            no_conditional_effects(task),
            old(self).ok(task),
            old(self).open.entries@.len() > 0,
        ensures
            final(self).ok(task),
            final(self).best_g == old(self).best_g,
            final(self).open.entries@.len() == old(self).open.entries@.len() - 1,
            match r {
                None => {
                    &&& final(self).goals@ == old(self).goals@
                    &&& final(self).g@ == old(self).g@
                },
                Some((j, g)) => {
                    &&& j == old(self).goals@.len()
                    &&& final(self).goals@.len() == j + 1
                    &&& final(self).goals@.drop_last() == old(self).goals@
                    &&& final(self).g@ == old(self).g@.push(g)
                },
            },
    {
        let ghost before = self.open.entries@;
        let popped = self.open.pop_min();
        let (_, node) = popped.unwrap();
        let ghost nq = before.len() as int;
        let ghost wi = choose|i: int|
            0 <= i < nq && before[i] == (popped->0) && (forall|j: int|
                0 <= j < nq && j != i ==> self.open.entries@[moved(i, nq, j)] == before[j]) && (forall|j: int|
                0 <= j < nq - 1 ==> self.open.entries@[j] == before[origin(i, nq, j)] && origin(i, nq, j) != i);
        proof {
            assert(backward_entry_ok(task, self.goals@, before[wi].1));
            assert forall|q: int| 0 <= q < self.open.entries@.len() implies backward_entry_ok(task, self.goals@, (#[trigger] self.open.entries@[q]).1)
                && known_subgoal(&self.best_g, (self.open.entries@[q].1.subgoal.pos@, self.open.entries@[q].1.subgoal.neg@))
                && self.open.entries@[q].0 == self.open.entries@[q].1.g as u128 by {
                assert(self.open.entries@[q] == before[origin(wi, nq, q)]);
            }
        }
        let stale = match self.best_g.get(&node.subgoal) {
            Some(b) => node.g > *b,
            None => false,
        };
        let ghost key = (node.subgoal.pos@, node.subgoal.neg@);
        if stale {
            proof {
                assert forall|sg: (Seq<bool>, Seq<bool>)| #[trigger] known_subgoal(&self.best_g, sg) implies (exists|j: int|
                    0 <= j < self.goals@.len() && ((#[trigger] self.goals@[j]).pos@, self.goals@[j].neg@) == sg) || (exists|q: int|
                    0 <= q < self.open.entries@.len()
                        && ((#[trigger] self.open.entries@[q]).1.subgoal.pos@, self.open.entries@[q].1.subgoal.neg@) == sg
                        && self.best_g.lookup(sg) == Some(self.open.entries@[q].1.g)) by {
                    if !(exists|j: int| 0 <= j < self.goals@.len() && ((#[trigger] self.goals@[j]).pos@, self.goals@[j].neg@) == sg) {
                        let q = choose|q: int| 0 <= q < nq && ((#[trigger] before[q]).1.subgoal.pos@, before[q].1.subgoal.neg@) == sg
                            && self.best_g.lookup(sg) == Some(before[q].1.g);
                        assert(q != wi);
                        assert(self.open.entries@[moved(wi, nq, q)] == before[q]);
                    }
                }
            }
            return None;
        }
        let j = self.goals.len();
        let g = node.g;
        let ghost old_goals = self.goals@;
        let ghost np: Seq<OpId> = match node.parent {
            None => Seq::<OpId>::empty(),
            Some((p, op)) => seq![op] + self.paths@[p as int],
        };
        proof {
            match node.parent {
                None => {
                    assert(leads_to_goal(task, task.goal_pos@, task.goal_neg@, Seq::<OpId>::empty()));
                    assert(fits(node.subgoal.pos@, task.facts@.len()));
                },
                Some((p, op)) => {
                    let k = op.0 as int;
                    assert(task.operators@[k].id == op);
                    assert(task.operators@[k].conditional@.len() == 0);
                    assert(leads_to_goal(task, self.goals@[p as int].pos@, self.goals@[p as int].neg@, self.paths@[p as int]));
                    lemma_regress(task, k, self.goals@[p as int].pos@, self.goals@[p as int].neg@, self.paths@[p as int]);
                    assert forall|q: int| 0 <= q < np.len() implies (#[trigger] np[q]).0 < task.operators@.len() by {
                        if q > 0 {
                            assert(np[q] == self.paths@[p as int][q - 1]);
                        }
                    }
                },
            }
        }
        self.goals.push(node.subgoal);
        self.g.push(g);
        self.parent.push(node.parent);
        self.paths = Ghost(self.paths@.push(np));
        proof {
            assert(self.goals@.drop_last() =~= old_goals);
            assert forall|jj: int| 0 <= jj < self.goals@.len() implies {
                &&& leads_to_goal(task, self.goals@[jj].pos@, self.goals@[jj].neg@, #[trigger] self.paths@[jj])
                &&& ids_valid(task, self.paths@[jj])
                &&& fits(self.goals@[jj].pos@, task.facts@.len())
                &&& fits(self.goals@[jj].neg@, task.facts@.len())
            } by {
                if jj < old_goals.len() {
                    assert(self.paths@[jj] == self.paths@.drop_last()[jj]);
                    assert(self.goals@[jj] == old_goals[jj]);
                }
            }
            assert forall|jj: int| 0 <= jj < self.parent@.len() implies match #[trigger] self.parent@[jj] {
                None => self.paths@[jj] == Seq::<OpId>::empty(),
                Some((p, o)) => p < jj && self.paths@[jj] == seq![o] + self.paths@[p as int],
            } by {
                if jj < old_goals.len() {
                    assert(self.parent@[jj] == self.parent@.drop_last()[jj]);
                    assert(self.paths@[jj] == self.paths@.drop_last()[jj]);
                }
            }
            assert forall|q: int| 0 <= q < self.open.entries@.len() implies backward_entry_ok(task, self.goals@, (#[trigger] self.open.entries@[q]).1) by {
                let e = self.open.entries@[q].1;
                assert(backward_entry_ok(task, old_goals, e));
                match e.parent {
                    None => {},
                    Some((p, op)) => {
                        assert(self.goals@[p as int] == old_goals[p as int]);
                    },
                }
            }
            assert(self.goals@[j as int] == before[wi].1.subgoal);
            assert forall|sg: (Seq<bool>, Seq<bool>)| #[trigger] known_subgoal(&self.best_g, sg) implies (exists|jj: int|
                0 <= jj < self.goals@.len() && ((#[trigger] self.goals@[jj]).pos@, self.goals@[jj].neg@) == sg) || (exists|q: int|
                0 <= q < self.open.entries@.len()
                    && ((#[trigger] self.open.entries@[q]).1.subgoal.pos@, self.open.entries@[q].1.subgoal.neg@) == sg
                    && self.best_g.lookup(sg) == Some(self.open.entries@[q].1.g)) by {
                if sg != key {
                    if exists|jj: int| 0 <= jj < old_goals.len() && ((#[trigger] old_goals[jj]).pos@, old_goals[jj].neg@) == sg {
                        let jj = choose|jj: int| 0 <= jj < old_goals.len() && ((#[trigger] old_goals[jj]).pos@, old_goals[jj].neg@) == sg;
                        assert(self.goals@[jj] == old_goals[jj]);
                    } else {
                        let q = choose|q: int| 0 <= q < nq && ((#[trigger] before[q]).1.subgoal.pos@, before[q].1.subgoal.neg@) == sg
                            && self.best_g.lookup(sg) == Some(before[q].1.g);
                        assert(q != wi);
                        assert(self.open.entries@[moved(wi, nq, q)] == before[q]);
                    }
                } else {
                    assert(((self.goals@[j as int]).pos@, self.goals@[j as int].neg@) == sg);
                }
            }
        }
        Some((j, g))
    }

    /// Regresses the settled subgoal at `j`, of cost `g`, through every
    /// relevant and consistent operator, queueing each regression whose cost
    /// improves on the known one.
    pub fn expand(&mut self, task: &Task, j: usize, g: u64, stats: &mut SearchStats)
        requires
            task.well_formed(),
            old(self).ok(task),
            j < old(self).goals@.len(),
        ensures
            final(self).ok(task),
            final(self).goals@ == old(self).goals@,
            final(self).g@ == old(self).g@,
            final(self).paths@ == old(self).paths@,
            final(self).parent@ == old(self).parent@,
            final(stats).nodes_expanded == old(stats).nodes_expanded,
            final(stats).plan_cost == old(stats).plan_cost,
            final(stats).plan_length == old(stats).plan_length,
            regressed_upto(
                task,
                &final(self).best_g,
                old(self).goals@[j as int].pos@,
                old(self).goals@[j as int].neg@,
                g,
                task.operators@.len() as int,
            ),
            costs_kept(&old(self).best_g, &final(self).best_g),
            final(self).best_g.keys().len() >= old(self).best_g.keys().len(),
            final(self).best_g.keys().len() == old(self).best_g.keys().len() ==> cost_sum(final(self).best_g.values()) <= cost_sum(
                old(self).best_g.values(),
            ) && (cost_sum(final(self).best_g.values()) < cost_sum(old(self).best_g.values())
                || final(self).open.entries@.len() == old(self).open.entries@.len()),
    {
        let n = task.num_facts();
        let nops = task.operators.len();
        let ghost orig = self.best_g;
        let ghost k0 = self.best_g.keys().len();
        let ghost s0 = cost_sum(self.best_g.values());
        let ghost o0 = self.open.entries@.len();
        for k in 0..nops
            invariant
                k0 == old(self).best_g.keys().len(),
                s0 == cost_sum(old(self).best_g.values()),
                o0 == old(self).open.entries@.len(),
                self.best_g.keys().len() >= k0,
                self.best_g.keys().len() == k0 ==> cost_sum(self.best_g.values()) <= s0 && (cost_sum(self.best_g.values()) < s0
                    || self.open.entries@.len() == o0),
                nops == task.operators@.len(),
                n == task.facts@.len(),
                task.well_formed(),
                self.ok(task),
                j < self.goals@.len(),
                orig == old(self).best_g,
                regressed_upto(task, &self.best_g, self.goals@[j as int].pos@, self.goals@[j as int].neg@, g, k as int),
                costs_kept(&orig, &self.best_g),
                self.goals@ == old(self).goals@,
                self.g@ == old(self).g@,
                self.paths@ == old(self).paths@,
                self.parent@ == old(self).parent@,
                stats.nodes_expanded == old(stats).nodes_expanded,
                stats.plan_cost == old(stats).plan_cost,
                stats.plan_length == old(stats).plan_length,
        {
            let op = &task.operators[k];
            let sg = &self.goals[j];
            if is_relevant(op, &sg.pos, &sg.neg) && is_consistent(op, &sg.pos, &sg.neg) {
                let new_sg = regress_subgoal(op, &sg.pos, &sg.neg, n);
                let new_g = g.saturating_add(op.cost as u64);
                assert(new_g == capped(g as nat + task.operators@[k as int].cost as nat));
                let better = match self.best_g.get(&new_sg) {
                    Some(b) => new_g < *b,
                    None => true,
                };
                if !better {
                    proof {
                        let pos = self.goals@[j as int].pos@;
                        let neg = self.goals@[j as int].neg@;
                        assert forall|kk: int|
                            0 <= kk < k + 1 && kk < task.operators@.len() && relevant(#[trigger] task.operators@[kk], pos, neg)
                                && consistent(task.operators@[kk], pos, neg) implies (self.best_g.lookup(
                            (regress_pos(pos, task.operators@[kk], task.facts@.len() as nat), regress_neg(neg, task.operators@[kk], task.facts@.len() as nat)),
                        ) matches Some(c) && c <= capped(g as nat + task.operators@[kk].cost as nat)) by {
                            if kk < k {
                                assert(regressed_upto(task, &self.best_g, pos, neg, g, k as int));
                            }
                        }
                    }
                }
                if better {
                    let ghost old_map = self.best_g;
                    let ghost prevq = self.open.entries@;
                    let ghost key = (new_sg.pos@, new_sg.neg@);
                    self.best_g.insert(new_sg.clone(), new_g);
                    proof {
                        lemma_lookup_after_insert(&old_map, &self.best_g, key, new_g);
                        lemma_insert_measure(&old_map, &self.best_g, key, new_g);
                        let pos = self.goals@[j as int].pos@;
                        let neg = self.goals@[j as int].neg@;
                        assert forall|kk: int|
                            0 <= kk < k + 1 && kk < task.operators@.len() && relevant(#[trigger] task.operators@[kk], pos, neg)
                                && consistent(task.operators@[kk], pos, neg) implies (self.best_g.lookup(
                            (regress_pos(pos, task.operators@[kk], task.facts@.len() as nat), regress_neg(neg, task.operators@[kk], task.facts@.len() as nat)),
                        ) matches Some(c) && c <= capped(g as nat + task.operators@[kk].cost as nat)) by {
                            let kkey = (regress_pos(pos, task.operators@[kk], task.facts@.len() as nat), regress_neg(neg, task.operators@[kk], task.facts@.len() as nat));
                            if kk < k {
                                assert(regressed_upto(task, &old_map, pos, neg, g, k as int));
                                assert(old_map.lookup(kkey) is Some);
                            }
                        }
                        assert forall|sk: (Seq<bool>, Seq<bool>)| (#[trigger] orig.lookup(sk)) is Some implies (self.best_g.lookup(sk) is Some && self.best_g.lookup(sk)->0 <= orig.lookup(sk)->0) by {
                            assert(old_map.lookup(sk) is Some);
                        }
                    }
                    stats.nodes_generated = stats.nodes_generated.saturating_add(1);
                    let entry = BackwardEntry { g: new_g, subgoal: new_sg, parent: Some((j, op.id)) };
                    proof {
                        assert(task.operators@[k as int].id.0 == k);
                        assert(backward_entry_ok(task, self.goals@, entry));
                    }
                    self.open.push(new_g as u128, entry);
                    proof {
                        let nq = prevq.len() as int;
                        assert forall|q: int| 0 <= q < self.open.entries@.len() implies backward_entry_ok(task, self.goals@, (#[trigger] self.open.entries@[q]).1)
                            && known_subgoal(&self.best_g, (self.open.entries@[q].1.subgoal.pos@, self.open.entries@[q].1.subgoal.neg@))
                            && self.open.entries@[q].0 == self.open.entries@[q].1.g as u128 by {
                            if q < nq {
                                assert(self.open.entries@[q] == prevq[q]);
                                assert(known_subgoal(&old_map, (prevq[q].1.subgoal.pos@, prevq[q].1.subgoal.neg@)));
                            }
                        }
                        assert forall|s: (Seq<bool>, Seq<bool>)| #[trigger] known_subgoal(&self.best_g, s) implies (exists|jj: int|
                            0 <= jj < self.goals@.len() && ((#[trigger] self.goals@[jj]).pos@, self.goals@[jj].neg@) == s) || (exists|q: int|
                            0 <= q < self.open.entries@.len()
                                && ((#[trigger] self.open.entries@[q]).1.subgoal.pos@, self.open.entries@[q].1.subgoal.neg@) == s
                                && self.best_g.lookup(s) == Some(self.open.entries@[q].1.g)) by {
                            if s == key {
                                assert(((self.open.entries@[nq]).1.subgoal.pos@, self.open.entries@[nq].1.subgoal.neg@) == s);
                            } else {
                                assert(known_subgoal(&old_map, s));
                                if !(exists|jj: int| 0 <= jj < self.goals@.len() && ((#[trigger] self.goals@[jj]).pos@, self.goals@[jj].neg@) == s) {
                                    let q = choose|q: int| 0 <= q < nq && ((#[trigger] prevq[q]).1.subgoal.pos@, prevq[q].1.subgoal.neg@) == s
                                        && old_map.lookup(s) == Some(prevq[q].1.g);
                                    assert(self.open.entries@[q] == prevq[q]);
                                }
                            }
                        }
                        assert(known_subgoal(&self.best_g, (task.goal_pos@, task.goal_neg@))) by {
                            assert(known_subgoal(&old_map, (task.goal_pos@, task.goal_neg@)));
                        }
                    }
                }
            }
        }
    }
}

/// For the first `upto` operators, the regression of the subgoal
/// `(pos, neg)` through each that is relevant and consistent has a known
/// cost no more than `g` plus the operator's cost.
pub open spec fn regressed_upto(
    task: &Task,
    m: &KeyMap<Subgoal, u64>,
    pos: Seq<bool>,
    neg: Seq<bool>,
    g: u64,
    upto: int,
) -> bool {
    forall|k: int|
        0 <= k < upto && k < task.operators@.len() && relevant(#[trigger] task.operators@[k], pos, neg) && consistent(
            task.operators@[k],
            pos,
            neg,
        ) ==> (m.lookup(
            (
                regress_pos(pos, task.operators@[k], task.facts@.len() as nat),
                regress_neg(neg, task.operators@[k], task.facts@.len() as nat),
            ),
        ) matches Some(c) && c <= capped(g as nat + task.operators@[k].cost as nat))
}

/// Every cost known in `a` is known in `b`, and no higher.
pub open spec fn costs_kept<K: TableKey>(a: &KeyMap<K, u64>, b: &KeyMap<K, u64>) -> bool {
    forall|s: K::KV| (#[trigger] a.lookup(s)) is Some ==> (b.lookup(s) is Some && b.lookup(s)->0 <= a.lookup(s)->0)
}

/// The recorded meeting, if any, pairs a settled state with a settled
/// subgoal it satisfies; if there is none, no settled state satisfies any
/// settled subgoal.
pub open spec fn meet_valid(best: Option<(usize, usize, u128)>, fs: Seq<State>, bs: Seq<Subgoal>) -> bool {
    match best {
        Some((i, j, _)) => i < fs.len() && j < bs.len() && satisfies_goal(fs[i as int]@, bs[j as int].pos@, bs[j as int].neg@),
        None => forall|i: int, j: int|
            0 <= i < fs.len() && 0 <= j < bs.len() ==> !satisfies_goal((#[trigger] fs[i])@, (#[trigger] bs[j]).pos@, bs[j].neg@),
    }
}

/// Records the cheapest meeting of the newly settled state at `fi`, of cost
/// `g`, with the settled subgoals, unless a cheaper one is recorded.
pub fn meet_from_state(fs: &Vec<State>, fi: usize, g: u64, bs: &Vec<Subgoal>, bg: &Vec<u64>, best: &mut Option<(usize, usize, u128)>)
    requires
        fi + 1 == fs@.len(),
        bs@.len() == bg@.len(),
        meet_valid(*old(best), fs@.drop_last(), bs@),
    ensures
        meet_valid(*final(best), fs@, bs@),
{
    let m = bs.len();
    proof {
        match *best {
            Some((a, b, _)) => {
                assert(fs@[a as int] == fs@.drop_last()[a as int]);
            },
            None => {
                assert forall|i: int, jj: int|
                    0 <= i < fi && 0 <= jj < bs@.len() implies !satisfies_goal((#[trigger] fs@[i])@, (#[trigger] bs@[jj]).pos@, bs@[jj].neg@) by {
                    assert(fs@[i] == fs@.drop_last()[i]);
                }
            },
        }
    }
    for j in 0..m
        invariant
            m == bs@.len(),
            bs@.len() == bg@.len(),
            fi + 1 == fs@.len(),
            match *best {
                Some((a, b, _)) => a < fs@.len() && b < bs@.len() && satisfies_goal(fs@[a as int]@, bs@[b as int].pos@, bs@[b as int].neg@),
                None => {
                    &&& forall|i: int, jj: int|
                        0 <= i < fi && 0 <= jj < bs@.len() ==> !satisfies_goal((#[trigger] fs@[i])@, (#[trigger] bs@[jj]).pos@, bs@[jj].neg@)
                    &&& forall|jj: int| 0 <= jj < j ==> !satisfies_goal(fs@[fi as int]@, (#[trigger] bs@[jj]).pos@, bs@[jj].neg@)
                },
            },
    {
        if fs[fi].satisfies(&bs[j].pos, &bs[j].neg) {
            let total = g as u128 + bg[j] as u128;
            let take = match best {
                Some((_, _, c)) => total < *c,
                None => true,
            };
            if take {
                *best = Some((fi, j, total));
            }
        }
    }
    proof {
        if best.is_none() {
            assert forall|i: int, jj: int|
                0 <= i < fs@.len() && 0 <= jj < bs@.len() implies !satisfies_goal((#[trigger] fs@[i])@, (#[trigger] bs@[jj]).pos@, bs@[jj].neg@) by {
                if i < fi {
                    assert(fs@[i] == fs@.drop_last()[i]);
                }
            }
        }
    }
}

/// Records the cheapest meeting of the newly settled subgoal at `bj`, of
/// cost `g`, with the settled states, unless a cheaper one is recorded.
pub fn meet_from_subgoal(bs: &Vec<Subgoal>, bj: usize, g: u64, fs: &Vec<State>, fg: &Vec<u64>, best: &mut Option<(usize, usize, u128)>)
    requires
        bj + 1 == bs@.len(),
        fs@.len() == fg@.len(),
        meet_valid(*old(best), fs@, bs@.drop_last()),
    ensures
        meet_valid(*final(best), fs@, bs@),
{
    let m = fs.len();
    proof {
        match *best {
            Some((a, b, _)) => {
                assert(bs@[b as int] == bs@.drop_last()[b as int]);
            },
            None => {
                assert forall|ii: int, jj: int|
                    0 <= ii < fs@.len() && 0 <= jj < bj implies !satisfies_goal((#[trigger] fs@[ii])@, (#[trigger] bs@[jj]).pos@, bs@[jj].neg@) by {
                    assert(bs@[jj] == bs@.drop_last()[jj]);
                }
            },
        }
    }
    for i in 0..m
        invariant
            m == fs@.len(),
            fs@.len() == fg@.len(),
            bj + 1 == bs@.len(),
            match *best {
                Some((a, b, _)) => a < fs@.len() && b < bs@.len() && satisfies_goal(fs@[a as int]@, bs@[b as int].pos@, bs@[b as int].neg@),
                None => {
                    &&& forall|ii: int, jj: int|
                        0 <= ii < fs@.len() && 0 <= jj < bj ==> !satisfies_goal((#[trigger] fs@[ii])@, (#[trigger] bs@[jj]).pos@, bs@[jj].neg@)
                    &&& forall|ii: int| 0 <= ii < i ==> !satisfies_goal((#[trigger] fs@[ii])@, bs@[bj as int].pos@, bs@[bj as int].neg@)
                },
            },
    {
        if fs[i].satisfies(&bs[bj].pos, &bs[bj].neg) {
            let total = fg[i] as u128 + g as u128;
            let take = match best {
                Some((_, _, c)) => total < *c,
                None => true,
            };
            if take {
                *best = Some((i, bj, total));
            }
        }
    }
    proof {
        if best.is_none() {
            assert forall|ii: int, jj: int|
                0 <= ii < fs@.len() && 0 <= jj < bs@.len() implies !satisfies_goal((#[trigger] fs@[ii])@, (#[trigger] bs@[jj]).pos@, bs@[jj].neg@) by {
                if jj < bj {
                    assert(bs@[jj] == bs@.drop_last()[jj]);
                }
            }
        }
    }
}

/// The forward side knows costs for at most `state_space(n)` states.
proof fn lemma_forward_keys_bound(task: &Task, f: &ForwardSide)
    requires
        task.well_formed(),
        f.ok(task),
    ensures
        f.best_g.keys().len() <= state_space(task.facts@.len()),
{
    f.best_g.lemma_keys_distinct();
    let keys = f.best_g.keys();
    assert forall|i: int| 0 <= i < keys.len() implies (#[trigger] keys[i]).len() == task.facts@.len() by {
        let s = keys[i];
        assert(f.best_g.position(s) is Some);
        assert(known_state(&f.best_g, s));
        if exists|ii: int| 0 <= ii < f.states@.len() && (#[trigger] f.states@[ii])@ == s {
            let ii = choose|ii: int| 0 <= ii < f.states@.len() && (#[trigger] f.states@[ii])@ == s;
            assert(run_ops(task, task.init@, f.paths@[ii]) == Some(f.states@[ii]@));
        } else {
            let q = choose|q: int| 0 <= q < f.open.entries@.len() && (#[trigger] f.open.entries@[q]).1.state@ == s
                && f.best_g.lookup(s) == Some(f.open.entries@[q].1.g);
            assert(forward_entry_ok(task, f.states@, f.open.entries@[q].1));
        }
    }
    lemma_distinct_seqs_bound(keys, task.facts@.len());
}

/// The backward side knows costs for at most one more than
/// `state_space(2 * n)` subgoals.
proof fn lemma_backward_keys_bound(task: &Task, b: &BackwardSide)
    requires
        task.well_formed(),
        b.ok(task),
    ensures
        b.best_g.keys().len() <= state_space(2 * task.facts@.len()) + 1,
{
    b.best_g.lemma_keys_distinct();
    let keys = b.best_g.keys();
    let root = (task.goal_pos@, task.goal_neg@);
    let n = task.facts@.len();
    assert forall|i: int| 0 <= i < keys.len() implies #[trigger] keys[i] == root || (keys[i].0.len() == n && keys[i].1.len() == n) by {
        let sg = keys[i];
        assert(b.best_g.position(sg) is Some);
        assert(known_subgoal(&b.best_g, sg));
        if exists|j: int| 0 <= j < b.goals@.len() && ((#[trigger] b.goals@[j]).pos@, b.goals@[j].neg@) == sg {
            let j = choose|j: int| 0 <= j < b.goals@.len() && ((#[trigger] b.goals@[j]).pos@, b.goals@[j].neg@) == sg;
            assert(leads_to_goal(task, b.goals@[j].pos@, b.goals@[j].neg@, b.paths@[j]));
        } else {
            let q = choose|q: int| 0 <= q < b.open.entries@.len()
                && ((#[trigger] b.open.entries@[q]).1.subgoal.pos@, b.open.entries@[q].1.subgoal.neg@) == sg
                && b.best_g.lookup(sg) == Some(b.open.entries@[q].1.g);
            assert(backward_entry_ok(task, b.goals@, b.open.entries@[q].1));
        }
    }
    lemma_distinct_pairs_bound(keys, root, n);
}

/// Bidirectional Dijkstra search (cost-aware).
pub struct BiDij {}

impl BiDij {
    pub fn new() -> (b: Self)
        ensures
            b == (BiDij {}),
    {
        BiDij {}
    }
}

impl BiDij {
    /// Runs the search. Operators with conditional effects are refused; a
    /// task whose initial state satisfies the goal gets the empty plan; a
    /// returned plan solves the task; `Unsolvable` means nothing solves it.
    pub fn run(&mut self, task: &Task, limits: &SearchLimits) -> (r: Result<SearchOutcome, MiniplanError>)
        requires
            task.well_formed(),
        ensures
            r is Err <==> !no_conditional_effects(task),
            r matches Err(e) ==> e is UnsupportedConditionalEffects,
            no_conditional_effects(task) && satisfies_goal(task.init@, task.goal_pos@, task.goal_neg@)
                ==> (r matches Ok(SearchOutcome::Plan(p, _)) && p.steps@.len() == 0),
            r matches Ok(SearchOutcome::Plan(plan, stats)) ==> plan_outcome_sound(task, &plan, &stats),
            r matches Ok(SearchOutcome::Unsolvable(_)) ==> !solvable(task),
            r matches Ok(SearchOutcome::LimitReached(stats)) ==> (limits.node_budget matches Some(m) && stats.nodes_expanded >= m)
                || limits.time_budget is Some,
    {
        let start = now();
        let mut stats = SearchStats::zero();
        if has_conditional_effects(task) {
            return Err(MiniplanError::UnsupportedConditionalEffects);
        }
        if task.init.satisfies(&task.goal_pos, &task.goal_neg) {
            stats.elapsed = elapsed_since(&start);
            let plan = Plan::new();
            proof {
                assert(plan.ops() =~= Seq::<OpId>::empty());
            }
            return Ok(SearchOutcome::Plan(plan, stats));
        }
        let mut fwd = ForwardSide::new(task);
        let mut bwd = BackwardSide::new(task);
        let mut best: Option<(usize, usize, u128)> = None;
        proof {
            lemma_forward_keys_bound(task, &fwd);
            lemma_backward_keys_bound(task, &bwd);
        }
        loop
            invariant
                searching(task),
                fwd.ok(task),
                bwd.ok(task),
                fwd.best_g.keys().len() <= state_space(task.facts@.len()),
                bwd.best_g.keys().len() <= state_space(2 * task.facts@.len()) + 1,
                fwd.closed_upto(task, fwd.states@.len() as int),
                meet_valid(best, fwd.states@, bwd.goals@),
            decreases (state_space(task.facts@.len()) - fwd.best_g.keys().len()) + (state_space(2 * task.facts@.len()) + 1
                - bwd.best_g.keys().len()), cost_sum(fwd.best_g.values()) + cost_sum(bwd.best_g.values()),
                fwd.open.entries@.len() + bwd.open.entries@.len(),
        {
            if let Some(max_nodes) = limits.node_budget {
                if stats.nodes_expanded >= max_nodes {
                    stats.elapsed = elapsed_since(&start);
                    return Ok(SearchOutcome::LimitReached(stats));
                }
            }
            if let Some(timeout) = &limits.time_budget {
                let spent = elapsed_since(&start);
                if duration_at_least(&spent, timeout) {
                    stats.elapsed = elapsed_since(&start);
                    return Ok(SearchOutcome::LimitReached(stats));
                }
            }
            let forward_top = fwd.open.peek_rank();
            let backward_top = bwd.open.peek_rank();
            let done = match (forward_top, backward_top, best) {
                (Some(fg), Some(bg), Some((_, _, meet_cost))) => fg + bg >= meet_cost,
                _ => false,
            };
            if done || (forward_top.is_none() && backward_top.is_none() && best.is_some()) {
                let (i, j, _) = best.unwrap();
                let plan = meet_plan(
                    task,
                    &fwd.parent,
                    i,
                    Ghost(fwd.paths@),
                    Ghost(fwd.states@[i as int]@),
                    &bwd.parent,
                    j,
                    Ghost(bwd.paths@),
                    Ghost(bwd.goals@[j as int].pos@),
                    Ghost(bwd.goals@[j as int].neg@),
                );
                stats.elapsed = elapsed_since(&start);
                stats.plan_cost = plan.cost;
                stats.plan_length = plan.len();
                return Ok(SearchOutcome::Plan(plan, stats));
            }
            if forward_top.is_none() && backward_top.is_none() {
                proof {
                    let inside = |s: Seq<bool>| exists|i: int| 0 <= i < fwd.states@.len() && (#[trigger] fwd.states@[i])@ == s;
                    assert forall|s: Seq<bool>, k: int|
                        #![trigger inside(s), task.operators@[k]]
                        inside(s) && 0 <= k < task.operators@.len() && applicable_in(s, task.operators@[k])
                            implies inside(successor(s, task.operators@[k])) by {
                        let i = choose|i: int| 0 <= i < fwd.states@.len() && (#[trigger] fwd.states@[i])@ == s;
                        assert(known_state(&fwd.best_g, successor(fwd.states@[i]@, task.operators@[k])));
                    }
                    assert(known_state(&fwd.best_g, task.init@));
                    assert(known_subgoal(&bwd.best_g, (task.goal_pos@, task.goal_neg@)));
                    let jr = choose|j: int| 0 <= j < bwd.goals@.len()
                        && ((#[trigger] bwd.goals@[j]).pos@, bwd.goals@[j].neg@) == (task.goal_pos@, task.goal_neg@);
                    assert forall|ops: Seq<OpId>| !solves(task, ops) by {
                        lemma_runs_stay_inside(task, inside, ops);
                        if let Some(t) = run_ops(task, task.init@, ops) {
                            let i = choose|i: int| 0 <= i < fwd.states@.len() && (#[trigger] fwd.states@[i])@ == t;
                            assert(!satisfies_goal(fwd.states@[i]@, bwd.goals@[jr].pos@, bwd.goals@[jr].neg@));
                        }
                    }
                }
                stats.elapsed = elapsed_since(&start);
                return Ok(SearchOutcome::Unsolvable(stats));
            }
            let expand_forward = match (forward_top, backward_top) {
                (None, _) => false,
                (_, None) => true,
                (Some(fg), Some(bg)) => fg <= bg,
            };
            if expand_forward {
                let ghost old_goals = bwd.goals@;
                match fwd.settle(task) {
                    None => {},
                    Some((i, g)) => {
                        stats.nodes_expanded = stats.nodes_expanded.saturating_add(1);
                        meet_from_state(&fwd.states, i, g, &bwd.goals, &bwd.g, &mut best);
                        proof {
                            assert forall|ii: int, k: int|
                                0 <= ii < i && 0 <= k < task.operators@.len() && applicable_in((#[trigger] fwd.states@[ii])@, #[trigger] task.operators@[k])
                                    implies known_state(&fwd.best_g, successor(fwd.states@[ii]@, task.operators@[k])) by {
                                assert(fwd.states@[ii] == fwd.states@.drop_last()[ii]);
                            }
                        }
                        fwd.expand(task, i, g, &mut stats);
                    },
                }
            } else {
                match bwd.settle(task) {
                    None => {},
                    Some((j, g)) => {
                        stats.nodes_expanded = stats.nodes_expanded.saturating_add(1);
                        meet_from_subgoal(&bwd.goals, j, g, &fwd.states, &fwd.g, &mut best);
                        bwd.expand(task, j, g, &mut stats);
                    },
                }
            }
            proof {
                lemma_forward_keys_bound(task, &fwd);
                lemma_backward_keys_bound(task, &bwd);
            }
        }
    }
}

impl Planner for BiDij {
    fn name(&self) -> (r: &'static str)
        ensures
            r@ == "bidij"@,
    {
        "bidij"
    }

    fn describe(&self) -> (r: &'static str)
        ensures
            r@ == "Bidirectional Dijkstra (cost-aware)"@,
    {
        "Bidirectional Dijkstra (cost-aware)"
    }

    fn capabilities(&self) -> (c: PlannerCapabilities)
        ensures
            c.bits == (1u32 | 2u32) | 32u32,
    {
        PlannerCapabilities::classical().union(PlannerCapabilities::negative_preconds()).union(
            PlannerCapabilities::action_costs(),
        )
    }

    fn solve(&mut self, task: &Task, limits: &SearchLimits) -> (r: Result<SearchOutcome, MiniplanError>)
        ensures
            r is Err <==> !no_conditional_effects(task),
            r matches Err(e) ==> e is UnsupportedConditionalEffects,
            no_conditional_effects(task) && satisfies_goal(task.init@, task.goal_pos@, task.goal_neg@)
                ==> (r matches Ok(SearchOutcome::Plan(p, _)) && p.steps@.len() == 0),
            r matches Ok(SearchOutcome::Plan(plan, stats)) ==> plan_outcome_sound(task, &plan, &stats),
            r matches Ok(SearchOutcome::Unsolvable(_)) ==> !solvable(task),
            r matches Ok(SearchOutcome::LimitReached(stats)) ==> (limits.node_budget matches Some(m) && stats.nodes_expanded >= m)
                || limits.time_budget is Some,
    {
        self.run(task, limits)
    }
}

} // verus!
