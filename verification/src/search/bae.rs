//! Bidirectional A* with Error (BAE*, Sadhukhan 2013): a forward search
//! guided by a heuristic and a backward search by regression, each expanding
//! by the B-value `2g + h_f - h_b`, with f- and g-orderings kept for the
//! termination bound.

use vstd::prelude::*;
use crate::error::MiniplanError;
use crate::heuristic::relaxed::{
    HFF, max_over_goal, rpg_fact_costs, rpg_backward_fact_costs, forward_costs_ok, backward_costs_ok,
    goal_cost_max,
};
use crate::plan::{Plan, run_ops, step, lemma_run_push, capped};
use crate::queue::{MinQueue, lemma_removal_keeps};
use crate::search::{
    PlannerCapabilities,
    Heuristic, HValue, Planner, SearchLimits, SearchOutcome, SearchStats, now, elapsed_since,
    duration_at_least, plan_outcome_sound, solvable,
};
use crate::search::astar::Astar;
use crate::heuristic::zero::HZero;
use crate::search::bfs::ids_valid;
use crate::search::bidij::{meet_valid, meet_from_state, meet_from_subgoal};
use crate::search::regression::{
    no_conditional_effects, has_conditional_effects, is_relevant, is_consistent, regress_subgoal,
    regress_pos, regress_neg, leads_to_goal, lemma_regress, forward_links, backward_links,
    meet_plan, consistent, searching, relevant,
};
use crate::table::{KeyMap, Subgoal, TableKey, first_sum, lemma_insert_pair_measure};
use crate::task::{
    OpId, State, Task, applicable_in, successor, satisfies_goal, fits, is_set, lemma_effects_fit,
    operator_fits, lemma_lookup_after_insert, state_space, lemma_distinct_seqs_bound, lemma_distinct_pairs_bound,
};

verus! {

/// The value that stands for an unbounded estimate.
pub const UNBOUNDED: i128 = 0x1_0000_0000_0000_0000_0000i128;

/// The f-value `g + h`, unbounded when `h` is.
pub open spec fn f_value(g: u64, h: Option<u64>) -> int {
    match h {
        Some(x) => g + x,
        None => UNBOUNDED as int,
    }
}

/// The B-value `2g + h - h_opposite`: unbounded when `h` is, and below every
/// bounded value when only `h_opposite` is unbounded.
pub open spec fn b_value(g: u64, h: Option<u64>, h_opposite: Option<u64>) -> int {
    match (h, h_opposite) {
        (None, _) => UNBOUNDED as int,
        (Some(x), None) => -(UNBOUNDED as int),
        (Some(x), Some(y)) => 2 * g + x - y,
    }
}

/// Queue ranks stay within twice the unbounded value.
pub open spec fn rank_ok<T>(e: (u128, T)) -> bool {
    e.0 <= 2 * (UNBOUNDED as int)
}

pub fn f_rank(g: u64, h: Option<u64>) -> (r: u128)
    ensures
        r == f_value(g, h),
        r <= 2 * (UNBOUNDED as int),
{
    match h {
        Some(x) => g as u128 + x as u128,
        None => UNBOUNDED as u128,
    }
}

pub fn b_rank(g: u64, h: Option<u64>, h_opposite: Option<u64>) -> (r: u128)
    ensures
        r == b_value(g, h, h_opposite) + UNBOUNDED,
        r <= 2 * (UNBOUNDED as int),
{
    match (h, h_opposite) {
        (None, _) => 2 * (UNBOUNDED as u128),
        (Some(x), None) => 0,
        (Some(x), Some(y)) => 2 * (g as u128) + x as u128 + (UNBOUNDED as u128) - y as u128,
    }
}

/// Whether the lower bound on the cost of any plan through unexpanded nodes
/// has reached the cost of the recorded meeting. Each argument is a peeked
/// rank: B-ranks carry the offset `UNBOUNDED`, f- and g-ranks none; a missing
/// rank is an empty queue, which leaves that part of the bound unbounded.
pub fn bound_reached(
    pr_f: Option<u128>,
    pr_b: Option<u128>,
    f_f: Option<u128>,
    f_b: Option<u128>,
    g_f: Option<u128>,
    g_b: Option<u128>,
    meet: u128,
) -> (r: bool)
    requires
        pr_f matches Some(x) ==> x <= 2 * (UNBOUNDED as int),
        pr_b matches Some(x) ==> x <= 2 * (UNBOUNDED as int),
        f_f matches Some(x) ==> x <= 2 * (UNBOUNDED as int),
        f_b matches Some(x) ==> x <= 2 * (UNBOUNDED as int),
        g_f matches Some(x) ==> x <= 2 * (UNBOUNDED as int),
        g_b matches Some(x) ==> x <= 2 * (UNBOUNDED as int),
    ensures
        r == ({
            let gm = match (f_f, f_b, g_f, g_b) {
                (Some(ff), Some(fb), Some(gf), Some(gb)) => ff >= meet || fb >= meet || gf + gb >= meet,
                (Some(ff), None, Some(gf), _) => ff >= meet || gf >= meet,
                (None, Some(fb), _, Some(gb)) => fb >= meet || gb >= meet,
                _ => true,
            };
            gm || match (pr_f, pr_b) {
                (Some(pf), Some(pb)) => (pf - UNBOUNDED) + (pb - UNBOUNDED) >= 2 * meet,
                _ => false,
            }
        }),
{
    let gm = match (f_f, f_b, g_f, g_b) {
        (Some(ff), Some(fb), Some(gf), Some(gb)) => ff >= meet || fb >= meet || gf + gb >= meet,
        (Some(ff), None, Some(gf), _) => ff >= meet || gf >= meet,
        (None, Some(fb), _, Some(gb)) => fb >= meet || gb >= meet,
        _ => true,
    };
    gm || match (pr_f, pr_b) {
        (Some(pf), Some(pb)) => meet <= 2 * (UNBOUNDED as u128) && pf + pb >= 2 * meet + 2 * (UNBOUNDED as u128),
        _ => false,
    }
}

/// A forward queue entry with the cost and epoch it was queued at, and the
/// settled entry and operator it was reached by (none for the initial state).
pub struct BaeForwardEntry {
    pub g: u64,
    pub state: State,
    pub epoch: u64,
    pub parent: Option<(usize, OpId)>,
}

/// A backward queue entry with the cost and epoch it was queued at, and the
/// settled subgoal and operator it was regressed from (none for the goal).
pub struct BaeBackwardEntry {
    pub g: u64,
    pub subgoal: Subgoal,
    pub epoch: u64,
    pub parent: Option<(usize, OpId)>,
}

/// An f- or g-ordered forward entry.
pub struct StateStamp {
    pub g: u64,
    pub state: State,
    pub epoch: u64,
}

/// An f- or g-ordered backward entry.
pub struct SubgoalStamp {
    pub g: u64,
    pub subgoal: Subgoal,
    pub epoch: u64,
}

/// A B-ordered forward entry is the initial state or one step from a
/// settled state.
pub open spec fn bae_forward_ok(task: &Task, states: Seq<State>, e: BaeForwardEntry) -> bool {
    &&& e.state@.len() == task.facts@.len()
    &&& match e.parent {
        None => e.state@ == task.init@,
        Some((p, op)) => p < states.len() && step(task, states[p as int]@, op) == Some(e.state@),
    }
}

/// A B-ordered backward entry is the goal or the regression of a settled
/// subgoal through an operator consistent with it.
pub open spec fn bae_backward_ok(task: &Task, goals: Seq<Subgoal>, e: BaeBackwardEntry) -> bool {
    match e.parent {
        None => e.subgoal.pos@ == task.goal_pos@ && e.subgoal.neg@ == task.goal_neg@,
        Some((p, op)) => {
            &&& p < goals.len()
            &&& op.0 < task.operators@.len()
            &&& consistent(task.operators@[op.0 as int], goals[p as int].pos@, goals[p as int].neg@)
            &&& e.subgoal.pos@ == regress_pos(goals[p as int].pos@, task.operators@[op.0 as int], task.facts@.len())
            &&& e.subgoal.neg@ == regress_neg(goals[p as int].neg@, task.operators@[op.0 as int], task.facts@.len())
        },
    }
}

/// Every state or subgoal with a current cost in `a` has one in `b`, and no
/// higher.
pub open spec fn current_kept<K: TableKey>(a: &KeyMap<K, (u64, u64)>, b: &KeyMap<K, (u64, u64)>) -> bool {
    forall|s: K::KV| (#[trigger] a.lookup(s)) is Some ==> (b.lookup(s) is Some && (b.lookup(s)->0).0 <= (a.lookup(s)->0).0)
}

/// For the first `upto` operators applicable in `s`, the successor has a
/// current cost no more than `g` plus the operator's cost.
pub open spec fn successors_upto(task: &Task, m: &KeyMap<State, (u64, u64)>, s: Seq<bool>, g: u64, upto: int) -> bool {
    forall|k: int|
        0 <= k < upto && k < task.operators@.len() && applicable_in(s, #[trigger] task.operators@[k]) ==> (m.lookup(
            successor(s, task.operators@[k]),
        ) is Some && (m.lookup(successor(s, task.operators@[k]))->0).0 <= capped(g as nat + task.operators@[k].cost as nat))
}

/// The regression of the subgoal `(pos, neg)` through operator `k`, when
/// `k` is relevant to and consistent with it and both relaxed estimates of
/// the regression are known, has a current cost no more than `g` plus the
/// operator's cost.
pub open spec fn regression_ok(
    task: &Task,
    m: &KeyMap<Subgoal, (u64, u64)>,
    fact_costs: Seq<Option<u64>>,
    back_costs: Seq<Option<u64>>,
    pos: Seq<bool>,
    neg: Seq<bool>,
    g: u64,
    k: int,
) -> bool {
    let op = task.operators@[k];
    let rp = regress_pos(pos, op, task.facts@.len() as nat);
    let key = (rp, regress_neg(neg, op, task.facts@.len() as nat));
    relevant(op, pos, neg) && consistent(op, pos, neg) && goal_cost_max(rp, fact_costs, rp.len() as int) is Some
        && goal_cost_max(rp, back_costs, rp.len() as int) is Some ==> (m.lookup(key) is Some && (m.lookup(key)->0).0
        <= capped(g as nat + op.cost as nat))
}

/// `regression_ok` for the first `upto` operators.
pub open spec fn regressions_upto(
    task: &Task,
    m: &KeyMap<Subgoal, (u64, u64)>,
    fact_costs: Seq<Option<u64>>,
    back_costs: Seq<Option<u64>>,
    pos: Seq<bool>,
    neg: Seq<bool>,
    g: u64,
    upto: int,
) -> bool {
    forall|k: int|
        0 <= k < upto && k < task.operators@.len() ==> #[trigger] regression_ok(task, m, fact_costs, back_costs, pos, neg, g, k)
}

/// Lowering one current cost keeps `regressions_upto`.
proof fn lemma_regressions_update(
    task: &Task,
    a: &KeyMap<Subgoal, (u64, u64)>,
    b: &KeyMap<Subgoal, (u64, u64)>,
    fact_costs: Seq<Option<u64>>,
    back_costs: Seq<Option<u64>>,
    pos: Seq<bool>,
    neg: Seq<bool>,
    g: u64,
    upto: int,
    key: (Seq<bool>, Seq<bool>),
    v: (u64, u64),
)
    requires
        regressions_upto(task, a, fact_costs, back_costs, pos, neg, g, upto),
        b.lookup(key) == Some(v),
        forall|t: (Seq<bool>, Seq<bool>)| t != key ==> #[trigger] b.lookup(t) == a.lookup(t),
        a.lookup(key) is Some ==> v.0 < (a.lookup(key)->0).0,
    ensures
        regressions_upto(task, b, fact_costs, back_costs, pos, neg, g, upto),
{
    assert forall|k: int| 0 <= k < upto && k < task.operators@.len() implies #[trigger] regression_ok(
        task,
        b,
        fact_costs,
        back_costs,
        pos,
        neg,
        g,
        k,
    ) by {
        assert(regression_ok(task, a, fact_costs, back_costs, pos, neg, g, k));
        let op = task.operators@[k];
        let t = (regress_pos(pos, op, task.facts@.len() as nat), regress_neg(neg, op, task.facts@.len() as nat));
        if t != key {
            assert(b.lookup(t) == a.lookup(t));
        }
    }
}

/// `regressions_upto` extends by one operator for which `regression_ok`
/// holds.
proof fn lemma_regressions_extend(
    task: &Task,
    m: &KeyMap<Subgoal, (u64, u64)>,
    fact_costs: Seq<Option<u64>>,
    back_costs: Seq<Option<u64>>,
    pos: Seq<bool>,
    neg: Seq<bool>,
    g: u64,
    k: int,
)
    requires
        regressions_upto(task, m, fact_costs, back_costs, pos, neg, g, k),
        regression_ok(task, m, fact_costs, back_costs, pos, neg, g, k),
    ensures
        regressions_upto(task, m, fact_costs, back_costs, pos, neg, g, k + 1),
{
}

/// The forward half of BAE*: three orderings of the queued states, the
/// current cost and epoch of each state, and the settled states.
pub struct BaeForward {
    pub open_b: MinQueue<BaeForwardEntry>,
    pub open_f: MinQueue<StateStamp>,
    pub open_g: MinQueue<StateStamp>,
    pub current: KeyMap<State, (u64, u64)>,
    pub epoch_counter: u64,
    pub states: Vec<State>,
    pub g: Vec<u64>,
    pub parent: Vec<Option<(usize, OpId)>>,
    pub paths: Ghost<Seq<Seq<OpId>>>,
}

/// The backward half of BAE*.
pub struct BaeBackward {
    pub open_b: MinQueue<BaeBackwardEntry>,
    pub open_f: MinQueue<SubgoalStamp>,
    pub open_g: MinQueue<SubgoalStamp>,
    pub current: KeyMap<Subgoal, (u64, u64)>,
    pub epoch_counter: u64,
    pub goals: Vec<Subgoal>,
    pub g: Vec<u64>,
    pub parent: Vec<Option<(usize, OpId)>>,
    pub paths: Ghost<Seq<Seq<OpId>>>,
}

impl BaeForward {
    pub open spec fn ok(&self, task: &Task) -> bool {
        &&& self.current.wf()
        &&& self.states@.len() == self.g@.len()
        &&& self.states@.len() == self.parent@.len()
        &&& forward_links(self.parent@, self.paths@)
        &&& forall|i: int|
            0 <= i < self.states@.len() ==> {
                &&& run_ops(task, task.init@, #[trigger] self.paths@[i]) == Some(self.states@[i]@)
                &&& ids_valid(task, self.paths@[i])
                &&& self.states@[i]@.len() == task.facts@.len()
            }
        &&& forall|q: int| 0 <= q < self.open_b.entries@.len() ==> bae_forward_ok(task, self.states@, (#[trigger] self.open_b.entries@[q]).1)
        &&& forall|q: int| 0 <= q < self.open_b.entries@.len() ==> rank_ok(#[trigger] self.open_b.entries@[q])
        &&& forall|q: int| 0 <= q < self.open_f.entries@.len() ==> rank_ok(#[trigger] self.open_f.entries@[q])
        &&& forall|q: int| 0 <= q < self.open_g.entries@.len() ==> rank_ok(#[trigger] self.open_g.entries@[q])
        &&& forall|i: int| 0 <= i < self.current.keys().len() ==> (#[trigger] self.current.keys()[i]).len() == task.facts@.len()
    }

    /// Pops the B-, f- and g-queues, each until an entry whose cost and
    /// epoch are current for its state; settles the state of the B-entry.
    /// Nothing is settled when one of the queues runs out first.
    pub fn settle(&mut self, task: &Task) -> (r: Option<(usize, u64)>)
        requires
            task.well_formed(),
            old(self).ok(task),
        ensures
            final(self).ok(task),
            final(self).current == old(self).current,
            final(self).epoch_counter == old(self).epoch_counter,
            old(self).open_b.entries@.len() > 0 ==> final(self).open_b.entries@.len() < old(self).open_b.entries@.len(),
            final(self).open_f.entries@.len() <= old(self).open_f.entries@.len(),
            final(self).open_g.entries@.len() <= old(self).open_g.entries@.len(),
            match r {
                None => {
                    &&& final(self).states@ == old(self).states@
                    &&& final(self).g@ == old(self).g@
                    &&& (final(self).open_b.entries@.len() == 0 || final(self).open_f.entries@.len() == 0
                        || final(self).open_g.entries@.len() == 0)
                },
                Some((i, g)) => {
                    &&& i == old(self).states@.len()
                    &&& final(self).states@.len() == i + 1
                    &&& final(self).states@.drop_last() == old(self).states@
                    &&& final(self).g@ == old(self).g@.push(g)
                    &&& (final(self).current.lookup(final(self).states@[i as int]@) matches Some(c) && c.0 == g)
                },
            },
    {
        let ghost states = self.states@;
        let mut chosen: Option<BaeForwardEntry> = None;
        loop
            invariant_except_break
                chosen is None,
            invariant
                self.ok(task),
                states == old(self).states@,
                self.states@ == old(self).states@,
                self.current == old(self).current,
                self.epoch_counter == old(self).epoch_counter,
                self.g@ == old(self).g@,
                self.parent@ == old(self).parent@,
                self.paths@ == old(self).paths@,
                self.open_b.entries@.len() <= old(self).open_b.entries@.len(),
                self.open_f == old(self).open_f,
                self.open_g == old(self).open_g,
            ensures
                self.ok(task),
                self.states@ == old(self).states@,
                self.current == old(self).current,
                self.epoch_counter == old(self).epoch_counter,
                self.g@ == old(self).g@,
                self.parent@ == old(self).parent@,
                self.paths@ == old(self).paths@,
                chosen matches Some(e) ==> bae_forward_ok(task, states, e),
                chosen is None ==> self.open_b.entries@.len() == 0,
                chosen matches Some(e) ==> (self.current.lookup(e.state@) matches Some(c) && c.0 == e.g),
                self.open_b.entries@.len() <= old(self).open_b.entries@.len(),
                old(self).open_b.entries@.len() > 0 ==> self.open_b.entries@.len() < old(self).open_b.entries@.len(),
                self.open_f == old(self).open_f,
                self.open_g == old(self).open_g,
            decreases self.open_b.entries@.len(),
        {
            let ghost before = self.open_b.entries@;
            match self.open_b.pop_min() {
                None => {
                    break;
                },
                Some(e) => {
                    proof {
                        lemma_removal_keeps(before, self.open_b.entries@, e, |x: (u128, BaeForwardEntry)| bae_forward_ok(task, states, x.1));
                        lemma_removal_keeps(before, self.open_b.entries@, e, |x: (u128, BaeForwardEntry)| rank_ok(x));
                    }
                    let (_, node) = e;
                    let current = match self.current.get(&node.state) {
                        Some(c) => c.0 == node.g && c.1 == node.epoch,
                        None => false,
                    };
                    if current {
                        chosen = Some(node);
                        break;
                    }
                },
            }
        }
        let node = match chosen {
            Some(x) => x,
            None => {
                return None;
            },
        };
        loop
            invariant
                self.ok(task),
                self.states@ == old(self).states@,
                self.current == old(self).current,
                self.epoch_counter == old(self).epoch_counter,
                self.g@ == old(self).g@,
                self.parent@ == old(self).parent@,
                self.paths@ == old(self).paths@,
                self.open_f.entries@.len() <= old(self).open_f.entries@.len(),
                old(self).open_b.entries@.len() > 0 ==> self.open_b.entries@.len() < old(self).open_b.entries@.len(),
                self.open_g == old(self).open_g,
            decreases self.open_f.entries@.len(),
        {
            let ghost before = self.open_f.entries@;
            match self.open_f.pop_min() {
                None => {
                    return None;
                },
                Some(e) => {
                    proof {
                        lemma_removal_keeps(before, self.open_f.entries@, e, |x: (u128, StateStamp)| rank_ok(x));
                    }
                    let current = match self.current.get(&e.1.state) {
                        Some(c) => c.0 == e.1.g && c.1 == e.1.epoch,
                        None => false,
                    };
                    if current {
                        break;
                    }
                },
            }
        }
        loop
            invariant
                self.ok(task),
                self.states@ == old(self).states@,
                self.current == old(self).current,
                self.epoch_counter == old(self).epoch_counter,
                self.g@ == old(self).g@,
                self.parent@ == old(self).parent@,
                self.paths@ == old(self).paths@,
                self.open_g.entries@.len() <= old(self).open_g.entries@.len(),
                self.open_f.entries@.len() <= old(self).open_f.entries@.len(),
                old(self).open_b.entries@.len() > 0 ==> self.open_b.entries@.len() < old(self).open_b.entries@.len(),
            decreases self.open_g.entries@.len(),
        {
            let ghost before = self.open_g.entries@;
            match self.open_g.pop_min() {
                None => {
                    return None;
                },
                Some(e) => {
                    proof {
                        lemma_removal_keeps(before, self.open_g.entries@, e, |x: (u128, StateStamp)| rank_ok(x));
                    }
                    let current = match self.current.get(&e.1.state) {
                        Some(c) => c.0 == e.1.g && c.1 == e.1.epoch,
                        None => false,
                    };
                    if current {
                        break;
                    }
                },
            }
        }
        let i = self.states.len();
        let g = node.g;
        let ghost np: Seq<OpId> = match node.parent {
            None => Seq::<OpId>::empty(),
            Some((p, op)) => self.paths@[p as int].push(op),
        };
        proof {
            match node.parent {
                None => {},
                Some((p, op)) => {
                    lemma_run_push(task, task.init@, self.paths@[p as int], op);
                    assert(run_ops(task, task.init@, self.paths@[p as int]) == Some(self.states@[p as int]@));
                },
            }
        }
        self.states.push(node.state);
        self.g.push(g);
        self.parent.push(node.parent);
        self.paths = Ghost(self.paths@.push(np));
        proof {
            assert(self.states@.drop_last() =~= states);
            assert forall|ii: int| 0 <= ii < self.states@.len() implies {
                &&& run_ops(task, task.init@, #[trigger] self.paths@[ii]) == Some(self.states@[ii]@)
                &&& ids_valid(task, self.paths@[ii])
                &&& self.states@[ii]@.len() == task.facts@.len()
            } by {
                if ii < states.len() {
                    assert(self.paths@[ii] == self.paths@.drop_last()[ii]);
                    assert(self.states@[ii] == states[ii]);
                }
            }
            assert forall|ii: int| 0 <= ii < self.parent@.len() implies match #[trigger] self.parent@[ii] {
                None => self.paths@[ii] == Seq::<OpId>::empty(),
                Some((p, o)) => p < ii && self.paths@[ii] == self.paths@[p as int].push(o),
            } by {
                if ii < states.len() {
                    assert(self.parent@[ii] == self.parent@.drop_last()[ii]);
                    assert(self.paths@[ii] == self.paths@.drop_last()[ii]);
                }
            }
            assert forall|q: int| 0 <= q < self.open_b.entries@.len() implies bae_forward_ok(task, self.states@, (#[trigger] self.open_b.entries@[q]).1) by {
                let e = self.open_b.entries@[q].1;
                assert(bae_forward_ok(task, states, e));
                match e.parent {
                    None => {},
                    Some((p, op)) => {
                        assert(self.states@[p as int] == states[p as int]);
                    },
                }
            }
        }
        Some((i, g))
    }

    /// Generates the successors of the settled state at `i`, of cost `g`:
    /// each whose cost improves on its current one gets a new epoch and is
    /// queued in all three orders.
    pub fn expand(
        &mut self,
        task: &Task,
        h_forward: &Box<dyn Heuristic>,
        fact_costs: &Vec<Option<u64>>,
        i: usize,
        g: u64,
        stats: &mut SearchStats,
    )
        requires
            task.well_formed(),
            old(self).ok(task),
            i < old(self).states@.len(),
            fact_costs@.len() == task.facts@.len(),
        ensures
            final(self).ok(task),
            final(self).states@ == old(self).states@,
            final(self).g@ == old(self).g@,
            final(self).paths@ == old(self).paths@,
            final(self).parent@ == old(self).parent@,
            final(stats).nodes_expanded == old(stats).nodes_expanded,
            final(stats).plan_cost == old(stats).plan_cost,
            final(stats).plan_length == old(stats).plan_length,
            successors_upto(task, &final(self).current, old(self).states@[i as int]@, g, task.operators@.len() as int),
            current_kept(&old(self).current, &final(self).current),
            final(self).current.keys().len() >= old(self).current.keys().len(),
            final(self).current.keys().len() == old(self).current.keys().len() ==> first_sum(final(self).current.values())
                <= first_sum(old(self).current.values()) && (first_sum(final(self).current.values()) < first_sum(
                old(self).current.values(),
            ) || (final(self).open_b.entries@.len() == old(self).open_b.entries@.len() && final(self).open_f.entries@.len()
                == old(self).open_f.entries@.len() && final(self).open_g.entries@.len() == old(self).open_g.entries@.len())),
    {
        let n = task.num_facts();
        let nops = task.operators.len();
        let ghost orig = self.current;
        let ghost k0 = self.current.keys().len();
        let ghost s0 = first_sum(self.current.values());
        let ghost ob0 = self.open_b.entries@.len();
        let ghost of0 = self.open_f.entries@.len();
        let ghost og0 = self.open_g.entries@.len();
        proof {
            assert(run_ops(task, task.init@, self.paths@[i as int]) == Some(self.states@[i as int]@));
        }
        for k in 0..nops
            invariant
                k0 == old(self).current.keys().len(),
                s0 == first_sum(old(self).current.values()),
                ob0 == old(self).open_b.entries@.len(),
                of0 == old(self).open_f.entries@.len(),
                og0 == old(self).open_g.entries@.len(),
                self.current.keys().len() >= k0,
                self.current.keys().len() == k0 ==> first_sum(self.current.values()) <= s0 && (first_sum(self.current.values()) < s0
                    || (self.open_b.entries@.len() == ob0 && self.open_f.entries@.len() == of0 && self.open_g.entries@.len() == og0)),
                orig == old(self).current,
                successors_upto(task, &self.current, self.states@[i as int]@, g, k as int),
                current_kept(&orig, &self.current),
                nops == task.operators@.len(),
                n == task.facts@.len(),
                fact_costs@.len() == n,
                task.well_formed(),
                self.ok(task),
                i < self.states@.len(),
                self.states@ == old(self).states@,
                self.g@ == old(self).g@,
                self.paths@ == old(self).paths@,
                self.parent@ == old(self).parent@,
                self.states@[i as int]@.len() == n,
                stats.nodes_expanded == old(stats).nodes_expanded,
                stats.plan_cost == old(stats).plan_cost,
                stats.plan_length == old(stats).plan_length,
        {
            let op = &task.operators[k];
            let state = &self.states[i];
            if state.applicable(op) {
                proof {
                    assert(operator_fits(task.operators@[k as int], n as nat));
                    lemma_effects_fit(state@, *op, n as nat);
                }
                let next = state.apply(op);
                let new_g = g.saturating_add(op.cost as u64);
                assert(new_g == capped(g as nat + task.operators@[k as int].cost as nat));
                let better = match self.current.get(&next) {
                    Some(c) => new_g < c.0,
                    None => true,
                };
                if !better {
                    proof {
                        let st = self.states@[i as int]@;
                        assert forall|kk: int|
                            0 <= kk < k + 1 && kk < task.operators@.len() && applicable_in(st, #[trigger] task.operators@[kk])
                                implies (self.current.lookup(successor(st, task.operators@[kk])) is Some && (self.current.lookup(
                            successor(st, task.operators@[kk]),
                        )->0).0 <= capped(g as nat + task.operators@[kk].cost as nat)) by {
                            if kk < k {
                                assert(successors_upto(task, &self.current, st, g, k as int));
                            }
                        }
                    }
                }
                if better {
                    self.epoch_counter = self.epoch_counter.saturating_add(1);
                    let ep = self.epoch_counter;
                    let ghost old_map = self.current;
                    self.current.insert(next.clone(), (new_g, ep));
                    proof {
                        lemma_lookup_after_insert(&old_map, &self.current, next@, (new_g, ep));
                        lemma_insert_pair_measure(&old_map, &self.current, next@, (new_g, ep));
                        let st = self.states@[i as int]@;
                        assert forall|kk: int|
                            0 <= kk < k + 1 && kk < task.operators@.len() && applicable_in(st, #[trigger] task.operators@[kk])
                                implies (self.current.lookup(successor(st, task.operators@[kk])) is Some && (self.current.lookup(
                            successor(st, task.operators@[kk]),
                        )->0).0 <= capped(g as nat + task.operators@[kk].cost as nat)) by {
                            if kk < k {
                                assert(successors_upto(task, &old_map, st, g, k as int));
                                assert(old_map.lookup(successor(st, task.operators@[kk])) is Some);
                            }
                        }
                        assert forall|sk: Seq<bool>| (#[trigger] orig.lookup(sk)) is Some implies (self.current.lookup(sk) is Some
                            && (self.current.lookup(sk)->0).0 <= (orig.lookup(sk)->0).0) by {
                            assert(old_map.lookup(sk) is Some);
                        }
                    }
                    let hf = h_forward.estimate(task, &next);
                    proof {
                        assert forall|x: int| #[trigger] is_set(next@, x) implies x < fact_costs@.len() by {}
                    }
                    let hb = max_over_goal(&next, fact_costs);
                    let f = f_rank(new_g, hf.0);
                    let b = b_rank(new_g, hf.0, hb.0);
                    stats.nodes_generated = stats.nodes_generated.saturating_add(1);
                    let ghost prevb = self.open_b.entries@;
                    let ghost prevf = self.open_f.entries@;
                    let ghost prevg = self.open_g.entries@;
                    let entry = BaeForwardEntry { g: new_g, state: next.clone(), epoch: ep, parent: Some((i, op.id)) };
                    proof {
                        assert(step(task, self.states@[i as int]@, op.id) == Some(entry.state@));
                    }
                    self.open_b.push(b, entry);
                    self.open_f.push(f, StateStamp { g: new_g, state: next.clone(), epoch: ep });
                    self.open_g.push(new_g as u128, StateStamp { g: new_g, state: next, epoch: ep });
                    proof {
                        assert forall|q: int| 0 <= q < self.open_b.entries@.len() implies bae_forward_ok(task, self.states@, (#[trigger] self.open_b.entries@[q]).1)
                            && rank_ok(self.open_b.entries@[q]) by {
                            if q < prevb.len() {
                                assert(self.open_b.entries@[q] == prevb[q]);
                            }
                        }
                        assert forall|q: int| 0 <= q < self.open_f.entries@.len() implies rank_ok(#[trigger] self.open_f.entries@[q]) by {
                            if q < prevf.len() {
                                assert(self.open_f.entries@[q] == prevf[q]);
                            }
                        }
                        assert forall|q: int| 0 <= q < self.open_g.entries@.len() implies rank_ok(#[trigger] self.open_g.entries@[q]) by {
                            if q < prevg.len() {
                                assert(self.open_g.entries@[q] == prevg[q]);
                            }
                        }
                    }
                }
            }
        }
    }
}

impl BaeBackward {
    pub open spec fn ok(&self, task: &Task) -> bool {
        &&& self.current.wf()
        &&& self.goals@.len() == self.g@.len()
        &&& self.goals@.len() == self.parent@.len()
        &&& backward_links(self.parent@, self.paths@)
        &&& forall|j: int|
            0 <= j < self.goals@.len() ==> {
                &&& leads_to_goal(task, self.goals@[j].pos@, self.goals@[j].neg@, #[trigger] self.paths@[j])
                &&& ids_valid(task, self.paths@[j])
                &&& fits(self.goals@[j].pos@, task.facts@.len())
                &&& fits(self.goals@[j].neg@, task.facts@.len())
            }
        &&& forall|q: int| 0 <= q < self.open_b.entries@.len() ==> bae_backward_ok(task, self.goals@, (#[trigger] self.open_b.entries@[q]).1)
        &&& forall|q: int| 0 <= q < self.open_b.entries@.len() ==> rank_ok(#[trigger] self.open_b.entries@[q])
        &&& forall|q: int| 0 <= q < self.open_f.entries@.len() ==> rank_ok(#[trigger] self.open_f.entries@[q])
        &&& forall|q: int| 0 <= q < self.open_g.entries@.len() ==> rank_ok(#[trigger] self.open_g.entries@[q])
        &&& forall|i: int|
            0 <= i < self.current.keys().len() ==> #[trigger] self.current.keys()[i] == (task.goal_pos@, task.goal_neg@) || (
            self.current.keys()[i].0.len() == task.facts@.len() && self.current.keys()[i].1.len() == task.facts@.len())
    }

    /// Pops the three backward queues as the forward `settle` does and
    /// settles the subgoal of the B-entry.
    pub fn settle(&mut self, task: &Task) -> (r: Option<(usize, u64)>)
        requires
            task.well_formed(),
            no_conditional_effects(task),
            old(self).ok(task),
        ensures
            final(self).ok(task),
            final(self).current == old(self).current,
            final(self).epoch_counter == old(self).epoch_counter,
            old(self).open_b.entries@.len() > 0 ==> final(self).open_b.entries@.len() < old(self).open_b.entries@.len(),
            final(self).open_f.entries@.len() <= old(self).open_f.entries@.len(),
            final(self).open_g.entries@.len() <= old(self).open_g.entries@.len(),
            match r {
                None => {
                    &&& final(self).goals@ == old(self).goals@
                    &&& final(self).g@ == old(self).g@
                    &&& (final(self).open_b.entries@.len() == 0 || final(self).open_f.entries@.len() == 0
                        || final(self).open_g.entries@.len() == 0)
                },
                Some((j, g)) => {
                    &&& j == old(self).goals@.len()
                    &&& final(self).goals@.len() == j + 1
                    &&& final(self).goals@.drop_last() == old(self).goals@
                    &&& final(self).g@ == old(self).g@.push(g)
                    &&& (final(self).current.lookup((final(self).goals@[j as int].pos@, final(self).goals@[j as int].neg@)) matches Some(c)
                        && c.0 == g)
                },
            },
    {
        let ghost goals = self.goals@;
        let mut chosen: Option<BaeBackwardEntry> = None;
        loop
            invariant_except_break
                chosen is None,
            invariant
                self.ok(task),
                goals == old(self).goals@,
                self.goals@ == old(self).goals@,
                self.current == old(self).current,
                self.epoch_counter == old(self).epoch_counter,
                self.g@ == old(self).g@,
                self.parent@ == old(self).parent@,
                self.paths@ == old(self).paths@,
                self.open_b.entries@.len() <= old(self).open_b.entries@.len(),
                self.open_f == old(self).open_f,
                self.open_g == old(self).open_g,
            ensures
                self.ok(task),
                self.goals@ == old(self).goals@,
                self.current == old(self).current,
                self.epoch_counter == old(self).epoch_counter,
                self.g@ == old(self).g@,
                self.parent@ == old(self).parent@,
                self.paths@ == old(self).paths@,
                chosen matches Some(e) ==> bae_backward_ok(task, goals, e),
                chosen is None ==> self.open_b.entries@.len() == 0,
                chosen matches Some(e) ==> (self.current.lookup((e.subgoal.pos@, e.subgoal.neg@)) matches Some(c) && c.0 == e.g),
                self.open_b.entries@.len() <= old(self).open_b.entries@.len(),
                old(self).open_b.entries@.len() > 0 ==> self.open_b.entries@.len() < old(self).open_b.entries@.len(),
                self.open_f == old(self).open_f,
                self.open_g == old(self).open_g,
            decreases self.open_b.entries@.len(),
        {
            let ghost before = self.open_b.entries@;
            match self.open_b.pop_min() {
                None => {
                    break;
                },
                Some(e) => {
                    proof {
                        lemma_removal_keeps(before, self.open_b.entries@, e, |x: (u128, BaeBackwardEntry)| bae_backward_ok(task, goals, x.1));
                        lemma_removal_keeps(before, self.open_b.entries@, e, |x: (u128, BaeBackwardEntry)| rank_ok(x));
                    }
                    let (_, node) = e;
                    let current = match self.current.get(&node.subgoal) {
                        Some(c) => c.0 == node.g && c.1 == node.epoch,
                        None => false,
                    };
                    if current {
                        chosen = Some(node);
                        break;
                    }
                },
            }
        }
        let node = match chosen {
            Some(x) => x,
            None => {
                return None;
            },
        };
        loop
            invariant
                self.ok(task),
                self.goals@ == old(self).goals@,
                self.current == old(self).current,
                self.epoch_counter == old(self).epoch_counter,
                self.g@ == old(self).g@,
                self.parent@ == old(self).parent@,
                self.paths@ == old(self).paths@,
                self.open_f.entries@.len() <= old(self).open_f.entries@.len(),
                old(self).open_b.entries@.len() > 0 ==> self.open_b.entries@.len() < old(self).open_b.entries@.len(),
                self.open_g == old(self).open_g,
            decreases self.open_f.entries@.len(),
        {
            let ghost before = self.open_f.entries@;
            match self.open_f.pop_min() {
                None => {
                    return None;
                },
                Some(e) => {
                    proof {
                        lemma_removal_keeps(before, self.open_f.entries@, e, |x: (u128, SubgoalStamp)| rank_ok(x));
                    }
                    let current = match self.current.get(&e.1.subgoal) {
                        Some(c) => c.0 == e.1.g && c.1 == e.1.epoch,
                        None => false,
                    };
                    if current {
                        break;
                    }
                },
            }
        }
        loop
            invariant
                self.ok(task),
                self.goals@ == old(self).goals@,
                self.current == old(self).current,
                self.epoch_counter == old(self).epoch_counter,
                self.g@ == old(self).g@,
                self.parent@ == old(self).parent@,
                self.paths@ == old(self).paths@,
                self.open_g.entries@.len() <= old(self).open_g.entries@.len(),
                self.open_f.entries@.len() <= old(self).open_f.entries@.len(),
                old(self).open_b.entries@.len() > 0 ==> self.open_b.entries@.len() < old(self).open_b.entries@.len(),
            decreases self.open_g.entries@.len(),
        {
            let ghost before = self.open_g.entries@;
            match self.open_g.pop_min() {
                None => {
                    return None;
                },
                Some(e) => {
                    proof {
                        lemma_removal_keeps(before, self.open_g.entries@, e, |x: (u128, SubgoalStamp)| rank_ok(x));
                    }
                    let current = match self.current.get(&e.1.subgoal) {
                        Some(c) => c.0 == e.1.g && c.1 == e.1.epoch,
                        None => false,
                    };
                    if current {
                        break;
                    }
                },
            }
        }
        let j = self.goals.len();
        let g = node.g;
        let ghost np: Seq<OpId> = match node.parent {
            None => Seq::<OpId>::empty(),
            Some((p, op)) => seq![op] + self.paths@[p as int],
        };
        proof {
            match node.parent {
                None => {
                    assert(leads_to_goal(task, task.goal_pos@, task.goal_neg@, Seq::<OpId>::empty()));
                },
                Some((p, op)) => {
                    let k = op.0 as int;
                    assert(task.operators@[k].id == op);
                    assert(task.operators@[k].conditional@.len() == 0);
                    assert(leads_to_goal(task, self.goals@[p as int].pos@, self.goals@[p as int].neg@, self.paths@[p as int]));
                    lemma_regress(task, k, self.goals@[p as int].pos@, self.goals@[p as int].neg@, self.paths@[p as int]);
                    assert forall|q: int| 0 <= q < np.len() implies (#[trigger] np[q]).0 < task.operators@.len() by {
                        if q > 0 {
                            assert(np[q] == self.paths@[p as int][q - 1]);
                        }
                    }
                },
            }
        }
        self.goals.push(node.subgoal);
        self.g.push(g);
        self.parent.push(node.parent);
        self.paths = Ghost(self.paths@.push(np));
        proof {
            assert(self.goals@.drop_last() =~= goals);
            assert forall|jj: int| 0 <= jj < self.goals@.len() implies {
                &&& leads_to_goal(task, self.goals@[jj].pos@, self.goals@[jj].neg@, #[trigger] self.paths@[jj])
                &&& ids_valid(task, self.paths@[jj])
                &&& fits(self.goals@[jj].pos@, task.facts@.len())
                &&& fits(self.goals@[jj].neg@, task.facts@.len())
            } by {
                if jj < goals.len() {
                    assert(self.paths@[jj] == self.paths@.drop_last()[jj]);
                    assert(self.goals@[jj] == goals[jj]);
                }
            }
            assert forall|jj: int| 0 <= jj < self.parent@.len() implies match #[trigger] self.parent@[jj] {
                None => self.paths@[jj] == Seq::<OpId>::empty(),
                Some((p, o)) => p < jj && self.paths@[jj] == seq![o] + self.paths@[p as int],
            } by {
                if jj < goals.len() {
                    assert(self.parent@[jj] == self.parent@.drop_last()[jj]);
                    assert(self.paths@[jj] == self.paths@.drop_last()[jj]);
                }
            }
            assert forall|q: int| 0 <= q < self.open_b.entries@.len() implies bae_backward_ok(task, self.goals@, (#[trigger] self.open_b.entries@[q]).1) by {
                let e = self.open_b.entries@[q].1;
                assert(bae_backward_ok(task, goals, e));
                match e.parent {
                    None => {},
                    Some((p, op)) => {
                        assert(self.goals@[p as int] == goals[p as int]);
                    },
                }
            }
        }
        Some((j, g))
    }

    /// Regresses the settled subgoal at `j`, of cost `g`, through every
    /// relevant and consistent operator. A regression whose cost improves on
    /// its current one is queued in all three orders, unless one of its two
    /// estimates is unbounded.
    pub fn expand(
        &mut self,
        task: &Task,
        fact_costs: &Vec<Option<u64>>,
        back_costs: &Vec<Option<u64>>,
        j: usize,
        g: u64,
        stats: &mut SearchStats,
    )
        requires
            task.well_formed(),
            old(self).ok(task),
            j < old(self).goals@.len(),
            fact_costs@.len() == task.facts@.len(),
            back_costs@.len() == task.facts@.len(),
        ensures
            final(self).ok(task),
            final(self).goals@ == old(self).goals@,
            final(self).g@ == old(self).g@,
            final(self).paths@ == old(self).paths@,
            final(self).parent@ == old(self).parent@,
            final(stats).nodes_expanded == old(stats).nodes_expanded,
            final(stats).plan_cost == old(stats).plan_cost,
            final(stats).plan_length == old(stats).plan_length,
            regressions_upto(
                task,
                &final(self).current,
                fact_costs@,
                back_costs@,
                old(self).goals@[j as int].pos@,
                old(self).goals@[j as int].neg@,
                g,
                task.operators@.len() as int,
            ),
            current_kept(&old(self).current, &final(self).current),
            final(self).current.keys().len() >= old(self).current.keys().len(),
            final(self).current.keys().len() == old(self).current.keys().len() ==> first_sum(final(self).current.values())
                <= first_sum(old(self).current.values()) && (first_sum(final(self).current.values()) < first_sum(
                old(self).current.values(),
            ) || (final(self).open_b.entries@.len() == old(self).open_b.entries@.len() && final(self).open_f.entries@.len()
                == old(self).open_f.entries@.len() && final(self).open_g.entries@.len() == old(self).open_g.entries@.len())),
    {
        let n = task.num_facts();
        let nops = task.operators.len();
        let ghost orig = self.current;
        let ghost k0 = self.current.keys().len();
        let ghost s0 = first_sum(self.current.values());
        let ghost ob0 = self.open_b.entries@.len();
        let ghost of0 = self.open_f.entries@.len();
        let ghost og0 = self.open_g.entries@.len();
        for k in 0..nops
            invariant
                k0 == old(self).current.keys().len(),
                s0 == first_sum(old(self).current.values()),
                ob0 == old(self).open_b.entries@.len(),
                of0 == old(self).open_f.entries@.len(),
                og0 == old(self).open_g.entries@.len(),
                self.current.keys().len() >= k0,
                self.current.keys().len() == k0 ==> first_sum(self.current.values()) <= s0 && (first_sum(self.current.values()) < s0
                    || (self.open_b.entries@.len() == ob0 && self.open_f.entries@.len() == of0 && self.open_g.entries@.len() == og0)),
                orig == old(self).current,
                regressions_upto(task, &self.current, fact_costs@, back_costs@, self.goals@[j as int].pos@, self.goals@[j as int].neg@, g, k as int),
                current_kept(&orig, &self.current),
                nops == task.operators@.len(),
                n == task.facts@.len(),
                fact_costs@.len() == n,
                back_costs@.len() == n,
                task.well_formed(),
                self.ok(task),
                j < self.goals@.len(),
                self.goals@ == old(self).goals@,
                self.g@ == old(self).g@,
                self.paths@ == old(self).paths@,
                self.parent@ == old(self).parent@,
                stats.nodes_expanded == old(stats).nodes_expanded,
                stats.plan_cost == old(stats).plan_cost,
                stats.plan_length == old(stats).plan_length,
        {
            let op = &task.operators[k];
            let sg = &self.goals[j];
            let ghost pos = self.goals@[j as int].pos@;
            let ghost neg = self.goals@[j as int].neg@;
            let ghost before_k = self.current;
            if is_relevant(op, &sg.pos, &sg.neg) && is_consistent(op, &sg.pos, &sg.neg) {
                let new_sg = regress_subgoal(op, &sg.pos, &sg.neg, n);
                let new_g = g.saturating_add(op.cost as u64);
                assert(new_g == capped(g as nat + task.operators@[k as int].cost as nat));
                let better = match self.current.get(&new_sg) {
                    Some(c) => new_g < c.0,
                    None => true,
                };
                if better {
                    proof {
                        assert forall|x: int| #[trigger] is_set(new_sg.pos@, x) implies x < fact_costs@.len() by {}
                    }
                    let h_b = max_over_goal(&new_sg.pos, fact_costs);
                    let h_f = max_over_goal(&new_sg.pos, back_costs);
                    if h_b.0.is_some() && h_f.0.is_some() {
                        self.epoch_counter = self.epoch_counter.saturating_add(1);
                        let ep = self.epoch_counter;
                        self.current.insert(new_sg.clone(), (new_g, ep));
                        proof {
                            let key = (new_sg.pos@, new_sg.neg@);
                            lemma_lookup_after_insert(&before_k, &self.current, key, (new_g, ep));
                            lemma_insert_pair_measure(&before_k, &self.current, key, (new_g, ep));
                            lemma_regressions_update(task, &before_k, &self.current, fact_costs@, back_costs@, pos, neg, g, k as int, key, (new_g, ep));
                            assert(regression_ok(task, &self.current, fact_costs@, back_costs@, pos, neg, g, k as int));
                            assert forall|sk: (Seq<bool>, Seq<bool>)| (#[trigger] orig.lookup(sk)) is Some implies (self.current.lookup(sk) is Some
                                && (self.current.lookup(sk)->0).0 <= (orig.lookup(sk)->0).0) by {
                                assert(before_k.lookup(sk) is Some);
                            }
                            lemma_regressions_extend(task, &self.current, fact_costs@, back_costs@, pos, neg, g, k as int);
                        }
                        stats.nodes_generated = stats.nodes_generated.saturating_add(1);
                        let f = f_rank(new_g, h_b.0);
                        let b = b_rank(new_g, h_b.0, h_f.0);
                        let ghost prevb = self.open_b.entries@;
                        let ghost prevf = self.open_f.entries@;
                        let ghost prevg = self.open_g.entries@;
                        let entry = BaeBackwardEntry { g: new_g, subgoal: new_sg.clone(), epoch: ep, parent: Some((j, op.id)) };
                        proof {
                            assert(task.operators@[k as int].id.0 == k);
                            assert(bae_backward_ok(task, self.goals@, entry));
                        }
                        self.open_b.push(b, entry);
                        self.open_f.push(f, SubgoalStamp { g: new_g, subgoal: new_sg.clone(), epoch: ep });
                        self.open_g.push(new_g as u128, SubgoalStamp { g: new_g, subgoal: new_sg, epoch: ep });
                        proof {
                            assert forall|q: int| 0 <= q < self.open_b.entries@.len() implies bae_backward_ok(task, self.goals@, (#[trigger] self.open_b.entries@[q]).1)
                                && rank_ok(self.open_b.entries@[q]) by {
                                if q < prevb.len() {
                                    assert(self.open_b.entries@[q] == prevb[q]);
                                }
                            }
                            assert forall|q: int| 0 <= q < self.open_f.entries@.len() implies rank_ok(#[trigger] self.open_f.entries@[q]) by {
                                if q < prevf.len() {
                                    assert(self.open_f.entries@[q] == prevf[q]);
                                }
                            }
                            assert forall|q: int| 0 <= q < self.open_g.entries@.len() implies rank_ok(#[trigger] self.open_g.entries@[q]) by {
                                if q < prevg.len() {
                                    assert(self.open_g.entries@[q] == prevg[q]);
                                }
                            }
                        }
                    } else {
                        proof {
                            assert(regression_ok(task, &self.current, fact_costs@, back_costs@, pos, neg, g, k as int));
                            lemma_regressions_extend(task, &self.current, fact_costs@, back_costs@, pos, neg, g, k as int);
                        }
                    }
                } else {
                    proof {
                        assert(regression_ok(task, &self.current, fact_costs@, back_costs@, pos, neg, g, k as int));
                        lemma_regressions_extend(task, &self.current, fact_costs@, back_costs@, pos, neg, g, k as int);
                    }
                }
            } else {
                proof {
                    assert(regression_ok(task, &self.current, fact_costs@, back_costs@, pos, neg, g, k as int));
                    lemma_regressions_extend(task, &self.current, fact_costs@, back_costs@, pos, neg, g, k as int);
                }
            }
        }
    }
}

/// The forward half knows current costs for at most `state_space(n)`
/// states, and the backward half for at most one more than
/// `state_space(2 * n)` subgoals.
proof fn lemma_bae_keys_bound(task: &Task, f: &BaeForward, b: &BaeBackward)
    requires
        task.well_formed(),
        f.ok(task),
        b.ok(task),
    ensures
        f.current.keys().len() <= state_space(task.facts@.len()),
        b.current.keys().len() <= state_space(2 * task.facts@.len()) + 1,
{
    f.current.lemma_keys_distinct();
    b.current.lemma_keys_distinct();
    lemma_distinct_seqs_bound(f.current.keys(), task.facts@.len());
    lemma_distinct_pairs_bound(b.current.keys(), (task.goal_pos@, task.goal_neg@), task.facts@.len());
}

/// Bidirectional A* with Error. The forward heuristic guides the forward
/// search; relaxed fact costs from the initial state and towards the goal
/// give the other two estimates.
/// Settles a run whose frontiers ran dry without meeting. BAE*'s
/// bookkeeping drops queue entries of states that are not yet settled, so an
/// empty frontier does not show that no plan exists; a uniform-cost forward
/// search decides instead, and its expansions are added to those of the run.
fn complete_forward(task: &Task, limits: &SearchLimits, before: SearchStats) -> (r: SearchOutcome)
    requires
        task.well_formed(),
    ensures
        r matches SearchOutcome::Plan(plan, stats) ==> plan_outcome_sound(task, &plan, &stats),
        r matches SearchOutcome::Unsolvable(_) ==> !solvable(task),
        r matches SearchOutcome::LimitReached(stats) ==> (limits.node_budget matches Some(m) && stats.nodes_expanded >= m)
            || limits.time_budget is Some,
{
    let uniform = Astar::new(Box::new(HZero));
    match uniform.run(task, limits) {
        Ok(SearchOutcome::Plan(plan, mut stats)) => {
            stats.nodes_expanded = stats.nodes_expanded.saturating_add(before.nodes_expanded);
            stats.nodes_generated = stats.nodes_generated.saturating_add(before.nodes_generated);
            SearchOutcome::Plan(plan, stats)
        },
        Ok(SearchOutcome::Unsolvable(mut stats)) => {
            stats.nodes_expanded = stats.nodes_expanded.saturating_add(before.nodes_expanded);
            stats.nodes_generated = stats.nodes_generated.saturating_add(before.nodes_generated);
            SearchOutcome::Unsolvable(stats)
        },
        Ok(SearchOutcome::LimitReached(mut stats)) => {
            stats.nodes_expanded = stats.nodes_expanded.saturating_add(before.nodes_expanded);
            stats.nodes_generated = stats.nodes_generated.saturating_add(before.nodes_generated);
            SearchOutcome::LimitReached(stats)
        },
        Err(_) => SearchOutcome::LimitReached(before),
    }
}

pub struct Bae {
    pub h_forward: Box<dyn Heuristic>,
}

impl Bae {
    /// A BAE* planner with the given forward heuristic.
    /// A BAE* planner with the given forward heuristic. The contract does
    /// not say that the field holds the argument: a boxed trait object keeps
    /// no identity in the specification.
    pub fn new(h_forward: Box<dyn Heuristic>) -> (b: Self) {
        Bae { h_forward }
    }

    /// A BAE* planner with the FF heuristic. As for `new`, the contract does
    /// not say which heuristic the field holds.
    pub fn with_defaults() -> (b: Self) {
        Bae::new(Box::new(HFF))
    }

    /// Runs the search. Operators with conditional effects are refused; a
    /// task whose initial state satisfies the goal gets the empty plan; a
    /// returned plan solves the task, and `Unsolvable` means that none does.
    pub fn run(&mut self, task: &Task, limits: &SearchLimits) -> (r: Result<SearchOutcome, MiniplanError>)
        requires
            task.well_formed(),
        ensures
            r is Err <==> !no_conditional_effects(task),
            r matches Err(e) ==> e is UnsupportedConditionalEffects,
            no_conditional_effects(task) && satisfies_goal(task.init@, task.goal_pos@, task.goal_neg@)
                ==> (r matches Ok(SearchOutcome::Plan(p, _)) && p.steps@.len() == 0),
            r matches Ok(SearchOutcome::Plan(plan, stats)) ==> plan_outcome_sound(task, &plan, &stats),
            r matches Ok(SearchOutcome::Unsolvable(_)) ==> !solvable(task),
            r matches Ok(SearchOutcome::LimitReached(stats)) ==> (limits.node_budget matches Some(m) && stats.nodes_expanded >= m)
                || limits.time_budget is Some,
    {
        let start = now();
        let mut stats = SearchStats::zero();
        if has_conditional_effects(task) {
            return Err(MiniplanError::UnsupportedConditionalEffects);
        }
        if task.init.satisfies(&task.goal_pos, &task.goal_neg) {
            stats.elapsed = elapsed_since(&start);
            let plan = Plan::new();
            proof {
                assert(plan.ops() =~= Seq::<OpId>::empty());
            }
            return Ok(SearchOutcome::Plan(plan, stats));
        }
        let n = task.num_facts();
        let fact_costs = rpg_fact_costs(task, &task.init);
        let back_costs = rpg_backward_fact_costs(task, &task.goal_pos, &task.goal_neg);

        let init_hf = self.h_forward.estimate(task, &task.init);
        proof {
            assert forall|x: int| #[trigger] is_set(task.init@, x) implies x < fact_costs@.len() by {}
        }
        let init_hb = max_over_goal(&task.init, &fact_costs);
        let mut fwd = BaeForward {
            open_b: MinQueue::new(),
            open_f: MinQueue::new(),
            open_g: MinQueue::new(),
            current: KeyMap::new(),
            epoch_counter: 0,
            states: Vec::new(),
            g: Vec::new(),
            parent: Vec::new(),
            paths: Ghost(Seq::empty()),
        };
        fwd.open_b.push(b_rank(0, init_hf.0, init_hb.0), BaeForwardEntry { g: 0, state: task.init.clone(), epoch: 0, parent: None });
        fwd.open_f.push(f_rank(0, init_hf.0), StateStamp { g: 0, state: task.init.clone(), epoch: 0 });
        fwd.open_g.push(0, StateStamp { g: 0, state: task.init.clone(), epoch: 0 });
        fwd.current.insert(task.init.clone(), (0, 0));
        proof {
            assert(bae_forward_ok(task, fwd.states@, fwd.open_b.entries@[0].1));
        }

        let mut bwd = BaeBackward {
            open_b: MinQueue::new(),
            open_f: MinQueue::new(),
            open_g: MinQueue::new(),
            current: KeyMap::new(),
            epoch_counter: 0,
            goals: Vec::new(),
            g: Vec::new(),
            parent: Vec::new(),
            paths: Ghost(Seq::empty()),
        };
        let sg_h_b = max_over_goal(&task.goal_pos, &fact_costs);
        let sg_h_f = max_over_goal(&task.goal_pos, &back_costs);
        if sg_h_b.0.is_some() && sg_h_f.0.is_some() {
            let root = Subgoal { pos: task.goal_pos.clone(), neg: task.goal_neg.clone() };
            bwd.open_b.push(b_rank(0, sg_h_b.0, sg_h_f.0), BaeBackwardEntry { g: 0, subgoal: root.clone(), epoch: 0, parent: None });
            bwd.open_f.push(f_rank(0, sg_h_b.0), SubgoalStamp { g: 0, subgoal: root.clone(), epoch: 0 });
            bwd.open_g.push(0, SubgoalStamp { g: 0, subgoal: root.clone(), epoch: 0 });
            bwd.current.insert(root, (0, 0));
            proof {
                assert(bae_backward_ok(task, bwd.goals@, bwd.open_b.entries@[0].1));
            }
        }

        let mut best: Option<(usize, usize, u128)> = None;
        proof {
            lemma_bae_keys_bound(task, &fwd, &bwd);
        }
        loop
            invariant
                fwd.current.keys().len() <= state_space(task.facts@.len()),
                bwd.current.keys().len() <= state_space(2 * task.facts@.len()) + 1,
                searching(task),
                n == task.facts@.len(),
                fact_costs@.len() == n,
                back_costs@.len() == n,
                fwd.ok(task),
                bwd.ok(task),
                meet_valid(best, fwd.states@, bwd.goals@),
            decreases (state_space(task.facts@.len()) - fwd.current.keys().len()) + (state_space(2 * task.facts@.len()) + 1
                - bwd.current.keys().len()), first_sum(fwd.current.values()) + first_sum(bwd.current.values()),
                fwd.open_b.entries@.len() + fwd.open_f.entries@.len() + fwd.open_g.entries@.len() + bwd.open_b.entries@.len()
                + bwd.open_f.entries@.len() + bwd.open_g.entries@.len(),
        {
            if let Some(max_nodes) = limits.node_budget {
                if stats.nodes_expanded >= max_nodes {
                    stats.elapsed = elapsed_since(&start);
                    return Ok(SearchOutcome::LimitReached(stats));
                }
            }
            if let Some(timeout) = &limits.time_budget {
                let spent = elapsed_since(&start);
                if duration_at_least(&spent, timeout) {
                    stats.elapsed = elapsed_since(&start);
                    return Ok(SearchOutcome::LimitReached(stats));
                }
            }
            let pr_f = fwd.open_b.peek_rank();
            let pr_b = bwd.open_b.peek_rank();
            let f_f = fwd.open_f.peek_rank();
            let f_b = bwd.open_f.peek_rank();
            let g_f = fwd.open_g.peek_rank();
            let g_b = bwd.open_g.peek_rank();
            let reached = match best {
                Some((_, _, meet_cost)) => bound_reached(pr_f, pr_b, f_f, f_b, g_f, g_b, meet_cost),
                None => false,
            };
            let forward_empty = fwd.open_b.is_empty() || fwd.open_f.is_empty() || fwd.open_g.is_empty();
            let backward_empty = bwd.open_b.is_empty() || bwd.open_f.is_empty() || bwd.open_g.is_empty();
            if reached || (forward_empty && backward_empty && best.is_some()) {
                let (i, j, _) = best.unwrap();
                let plan = meet_plan(
                    task,
                    &fwd.parent,
                    i,
                    Ghost(fwd.paths@),
                    Ghost(fwd.states@[i as int]@),
                    &bwd.parent,
                    j,
                    Ghost(bwd.paths@),
                    Ghost(bwd.goals@[j as int].pos@),
                    Ghost(bwd.goals@[j as int].neg@),
                );
                stats.elapsed = elapsed_since(&start);
                stats.plan_cost = plan.cost;
                stats.plan_length = plan.len();
                return Ok(SearchOutcome::Plan(plan, stats));
            }
            if forward_empty && backward_empty {
                stats.elapsed = elapsed_since(&start);
                return Ok(complete_forward(task, limits, stats));
            }
            let expand_forward = match (pr_f, pr_b) {
                (None, _) => false,
                (_, None) => true,
                (Some(pf), Some(pb)) => pf <= pb,
            };
            if expand_forward {
                match fwd.settle(task) {
                    None => {},
                    Some((i, g)) => {
                        stats.nodes_expanded = stats.nodes_expanded.saturating_add(1);
                        meet_from_state(&fwd.states, i, g, &bwd.goals, &bwd.g, &mut best);
                        fwd.expand(task, &self.h_forward, &fact_costs, i, g, &mut stats);
                    },
                }
            } else {
                match bwd.settle(task) {
                    None => {},
                    Some((j, g)) => {
                        stats.nodes_expanded = stats.nodes_expanded.saturating_add(1);
                        meet_from_subgoal(&bwd.goals, j, g, &fwd.states, &fwd.g, &mut best);
                        bwd.expand(task, &fact_costs, &back_costs, j, g, &mut stats);
                    },
                }
            }
            proof {
                lemma_bae_keys_bound(task, &fwd, &bwd);
            }
        }
    }
}

impl Planner for Bae {
    fn name(&self) -> (r: &'static str)
        ensures
            r@ == "bae"@,
    {
        "bae"
    }

    fn describe(&self) -> (r: &'static str)
        ensures
            r@ == "Bidirectional A* with Error (BAE*, Sadhukhan 2013)"@,
    {
        "Bidirectional A* with Error (BAE*, Sadhukhan 2013)"
    }

    fn capabilities(&self) -> (c: PlannerCapabilities)
        ensures
            c.bits == (1u32 | 2u32) | 32u32,
    {
        PlannerCapabilities::classical().union(PlannerCapabilities::negative_preconds()).union(
            PlannerCapabilities::action_costs(),
        )
    }

    fn solve(&mut self, task: &Task, limits: &SearchLimits) -> (r: Result<SearchOutcome, MiniplanError>)
        ensures
            r is Err <==> !no_conditional_effects(task),
            r matches Err(e) ==> e is UnsupportedConditionalEffects,
            no_conditional_effects(task) && satisfies_goal(task.init@, task.goal_pos@, task.goal_neg@)
                ==> (r matches Ok(SearchOutcome::Plan(p, _)) && p.steps@.len() == 0),
            r matches Ok(SearchOutcome::Plan(plan, stats)) ==> plan_outcome_sound(task, &plan, &stats),
            r matches Ok(SearchOutcome::Unsolvable(_)) ==> !solvable(task),
            r matches Ok(SearchOutcome::LimitReached(stats)) ==> (limits.node_budget matches Some(m) && stats.nodes_expanded >= m)
                || limits.time_budget is Some,
    {
        self.run(task, limits)
    }
}

} // verus!
