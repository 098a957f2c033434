//! Greedy best-first search with a pluggable heuristic.

use vstd::prelude::*;
use crate::error::MiniplanError;
use crate::plan::{build_plan, copy_path, run_ops, solves, lemma_run_push, lemma_runs_stay_inside};
use crate::queue::{MinQueue, rank_of, moved, origin};
use crate::search::{
    PlannerCapabilities,
    Heuristic, HValue, Planner, SearchLimits, SearchOutcome, SearchStats, now, elapsed_since,
    duration_at_least, plan_outcome_sound, solvable,
};
use crate::search::bfs::{stored, ids_valid};
use crate::table::IndexTable;
use crate::task::{
    OpId, State, Task, applicable_in, successor, satisfies_goal, lemma_effects_fit, operator_fits,
    state_space, lemma_table_bound,
};

verus! {

/// A search node: the heuristic value of its state, the state, the path
/// that reached it and the cost of that path.
struct GbfsNode {
    h_score: HValue,
    state: State,
    path: Vec<OpId>,
    g_score: u64,
}

/// A queue entry reached its state from the initial state along its path.
spec fn gbfs_node_ok(task: &Task, node: &GbfsNode) -> bool {
    &&& run_ops(task, task.init@, node.path@) == Some(node.state@)
    &&& ids_valid(task, node.path@)
    &&& node.state@.len() == task.facts@.len()
}

/// Greedy best-first search expands the node with the lowest heuristic
/// value, ignoring the cost so far. It is fast but its plans need not be
/// the cheapest.
pub struct Gbfs {
    pub heuristic: Box<dyn Heuristic>,
}

impl Gbfs {
    /// A greedy best-first planner with the given heuristic. The contract
    /// does not say that the field holds the argument: a boxed trait object
    /// keeps no identity in the specification.
    pub fn new(heuristic: Box<dyn Heuristic>) -> (g: Self) {
        Gbfs { heuristic }
    }

    /// Runs the search. A plan it returns solves the task; `Unsolvable`
    /// means no sequence of operators solves it.
    pub fn run(&mut self, task: &Task, limits: &SearchLimits) -> (r: Result<SearchOutcome, MiniplanError>)
        requires
            task.well_formed(),
        ensures
            r is Ok,
            r matches Ok(SearchOutcome::Plan(plan, stats)) ==> plan_outcome_sound(task, &plan, &stats),
            r matches Ok(SearchOutcome::Unsolvable(_)) ==> !solvable(task),
            r matches Ok(SearchOutcome::LimitReached(stats)) ==> (limits.node_budget matches Some(m) && stats.nodes_expanded >= m)
                || limits.time_budget is Some,
    {
        let start = now();
        let mut stats = SearchStats::zero();
        let n = task.num_facts();
        let mut open: MinQueue<GbfsNode> = MinQueue::new();
        let mut closed: IndexTable<State> = IndexTable::new();

        let h = self.heuristic.estimate(task, &task.init);
        open.push(rank_of(h.0), GbfsNode { h_score: h, state: task.init.clone(), path: Vec::new(), g_score: 0 });
        let ghost mut seen: Set<Seq<bool>> = set![task.init@];
        proof {
            assert(open.entries@[0].1.state@ == task.init@);
        }
        loop
            invariant
                task.well_formed(),
                n == task.facts@.len(),
                closed.wf(),
                forall|i: int| 0 <= i < closed.entries().len() ==> (#[trigger] closed.entries()[i])@.len() == n,
                forall|q: int| 0 <= q < open.entries@.len() ==> gbfs_node_ok(task, &(#[trigger] open.entries@[q]).1),
                forall|q: int| 0 <= q < open.entries@.len() ==> seen.contains((#[trigger] open.entries@[q]).1.state@),
                forall|s: Seq<bool>| #[trigger] seen.contains(s) ==> stored(&closed, s)
                    || exists|q: int| 0 <= q < open.entries@.len() && (#[trigger] open.entries@[q]).1.state@ == s,
                forall|i: int| 0 <= i < closed.entries().len() ==> seen.contains((#[trigger] closed.entries()[i])@),
                forall|i: int|
                    0 <= i < closed.entries().len() ==> !satisfies_goal((#[trigger] closed.entries()[i])@, task.goal_pos@, task.goal_neg@)
                        && forall|k: int|
                        0 <= k < task.operators@.len() && applicable_in(closed.entries()[i]@, #[trigger] task.operators@[k])
                            ==> seen.contains(successor(closed.entries()[i]@, task.operators@[k])),
                seen.contains(task.init@),
                stats.nodes_expanded == closed.entries().len(),
            decreases state_space(n as nat) - closed.entries().len(), open.entries@.len(),
        {
            let ghost before_open = open.entries@;
            let popped = open.pop_min();
            let (_, node) = match popped {
                Some(e) => e,
                None => {
                    proof {
                        assert forall|s: Seq<bool>, k: int|
                            #![trigger seen.contains(s), task.operators@[k]]
                            seen.contains(s) && 0 <= k < task.operators@.len()
                                && applicable_in(s, task.operators@[k])
                                implies seen.contains(successor(s, task.operators@[k])) by {
                            assert(stored(&closed, s));
                            let i = choose|i: int| 0 <= i < closed.entries().len() && (#[trigger] closed.entries()[i])@ == s;
                        }
                        assert forall|ops: Seq<OpId>| !solves(task, ops) by {
                            lemma_runs_stay_inside(task, |s: Seq<bool>| seen.contains(s), ops);
                            if let Some(t) = run_ops(task, task.init@, ops) {
                                assert(stored(&closed, t));
                                let i = choose|i: int| 0 <= i < closed.entries().len() && (#[trigger] closed.entries()[i])@ == t;
                            }
                        }
                    }
                    stats.elapsed = elapsed_since(&start);
                    return Ok(SearchOutcome::Unsolvable(stats));
                },
            };
            proof {
                let nq = before_open.len() as int;
                let i = choose|i: int|
                    0 <= i < nq && before_open[i] == (popped->0) && (forall|j: int|
                        0 <= j < nq && j != i ==> open.entries@[moved(i, nq, j)] == before_open[j]) && (forall|j: int|
                        0 <= j < nq - 1 ==> open.entries@[j] == before_open[origin(i, nq, j)] && origin(i, nq, j) != i);
                assert(gbfs_node_ok(task, &before_open[i].1));
                assert forall|q: int| 0 <= q < open.entries@.len() implies gbfs_node_ok(task, &(#[trigger] open.entries@[q]).1)
                    && seen.contains(open.entries@[q].1.state@) by {
                    assert(open.entries@[q] == before_open[origin(i, nq, q)]);
                }
                assert forall|s: Seq<bool>| #[trigger] seen.contains(s) implies stored(&closed, s)
                    || s == node.state@
                    || exists|q: int| 0 <= q < open.entries@.len() && (#[trigger] open.entries@[q]).1.state@ == s by {
                    if !stored(&closed, s) && s != node.state@ {
                        let j = choose|j: int| 0 <= j < nq && (#[trigger] before_open[j]).1.state@ == s;
                        assert(j != i);
                        assert(open.entries@[moved(i, nq, j)] == before_open[j]);
                    }
                }
            }
            if closed.find(&node.state).is_some() {
                proof {
                    lemma_table_bound(&closed, n as nat);
                }
                continue;
            }
            let ghost before_closed = closed.entries();
            closed.insert(node.state.clone());
            let _closed_count = closed.len();
            stats.nodes_expanded = stats.nodes_expanded + 1;
            proof {
                assert(closed.entries()[before_closed.len() as int]@ == node.state@);
                assert(stored(&closed, node.state@));
                assert forall|i: int| 0 <= i < before_closed.len() implies closed.entries()[i] == before_closed[i] by {}
            }

            if node.state.satisfies(&task.goal_pos, &task.goal_neg) {
                let plan = build_plan(&node.path, task);
                stats.plan_cost = plan.cost;
                stats.plan_length = plan.len();
                stats.elapsed = elapsed_since(&start);
                return Ok(SearchOutcome::Plan(plan, stats));
            }

            if let Some(max_nodes) = limits.node_budget {
                if stats.nodes_expanded >= max_nodes {
                    stats.elapsed = elapsed_since(&start);
                    return Ok(SearchOutcome::LimitReached(stats));
                }
            }

            if let Some(timeout) = &limits.time_budget {
                let spent = elapsed_since(&start);
                if duration_at_least(&spent, timeout) {
                    stats.elapsed = elapsed_since(&start);
                    return Ok(SearchOutcome::LimitReached(stats));
                }
            }

            let nops = task.operators.len();
            for k in 0..nops
                invariant
                    nops == task.operators@.len(),
                    task.well_formed(),
                    n == task.facts@.len(),
                    gbfs_node_ok(task, &node),
                    !satisfies_goal(node.state@, task.goal_pos@, task.goal_neg@),
                    stored(&closed, node.state@),
                    closed.wf(),
                    forall|i: int| 0 <= i < closed.entries().len() ==> (#[trigger] closed.entries()[i])@.len() == n,
                    forall|q: int| 0 <= q < open.entries@.len() ==> gbfs_node_ok(task, &(#[trigger] open.entries@[q]).1),
                    forall|q: int| 0 <= q < open.entries@.len() ==> seen.contains((#[trigger] open.entries@[q]).1.state@),
                    forall|s: Seq<bool>| #[trigger] seen.contains(s) ==> stored(&closed, s)
                        || exists|q: int| 0 <= q < open.entries@.len() && (#[trigger] open.entries@[q]).1.state@ == s,
                    forall|i: int| 0 <= i < closed.entries().len() ==> seen.contains((#[trigger] closed.entries()[i])@),
                    forall|i: int|
                        0 <= i < closed.entries().len() && (#[trigger] closed.entries()[i])@ != node.state@
                            ==> !satisfies_goal(closed.entries()[i]@, task.goal_pos@, task.goal_neg@)
                            && forall|kk: int|
                            0 <= kk < task.operators@.len() && applicable_in(closed.entries()[i]@, #[trigger] task.operators@[kk])
                                ==> seen.contains(successor(closed.entries()[i]@, task.operators@[kk])),
                    forall|j: int|
                        0 <= j < k && applicable_in(node.state@, #[trigger] task.operators@[j])
                            ==> seen.contains(successor(node.state@, task.operators@[j])),
                    seen.contains(task.init@),
                    stats.nodes_expanded == closed.entries().len(),
            {
                let op = &task.operators[k];
                if node.state.applicable(op) {
                    proof {
                        assert(operator_fits(task.operators@[k as int], n as nat));
                        lemma_effects_fit(node.state@, *op, n as nat);
                    }
                    let next = node.state.apply(op);
                    match closed.find(&next) {
                        Some(ci) => {
                            assert(seen.contains(closed.entries()[ci as int]@));
                        },
                        None => {
                            stats.nodes_generated = stats.nodes_generated.saturating_add(1);
                            let hv = self.heuristic.estimate(task, &next);
                            let mut new_path = copy_path(&node.path);
                            new_path.push(op.id);
                            proof {
                                lemma_run_push(task, task.init@, node.path@, op.id);
                                seen = seen.insert(next@);
                            }
                            let ghost prevq = open.entries@;
                            let g = node.g_score.saturating_add(op.cost as u64);
                            open.push(rank_of(hv.0), GbfsNode { h_score: hv, state: next, path: new_path, g_score: g });
                            proof {
                                let nq = prevq.len() as int;
                                assert(open.entries@[nq].1.state@ == successor(node.state@, task.operators@[k as int]));
                                assert forall|s: Seq<bool>| #[trigger] seen.contains(s) implies stored(&closed, s)
                                    || exists|q: int| 0 <= q < open.entries@.len() && (#[trigger] open.entries@[q]).1.state@ == s by {
                                    if s != open.entries@[nq].1.state@ && !stored(&closed, s) {
                                        let q = choose|q: int| 0 <= q < prevq.len() && (#[trigger] prevq[q]).1.state@ == s;
                                        assert(open.entries@[q] == prevq[q]);
                                    }
                                }
                                assert forall|q: int| 0 <= q < open.entries@.len() implies gbfs_node_ok(task, &(#[trigger] open.entries@[q]).1)
                                    && seen.contains(open.entries@[q].1.state@) by {
                                    if q < nq {
                                        assert(open.entries@[q] == prevq[q]);
                                    }
                                }
                            }
                        },
                    }
                }
            }
            proof {
                lemma_table_bound(&closed, n as nat);
            }
        }
    }
}

impl Planner for Gbfs {
    fn name(&self) -> (r: &'static str)
        ensures
            r@ == "gbfs"@,
    {
        "gbfs"
    }

    fn describe(&self) -> (r: &'static str)
        ensures
            r@ == "Greedy best-first search"@,
    {
        "Greedy best-first search"
    }

    fn capabilities(&self) -> (c: PlannerCapabilities)
        ensures
            c.bits == (1u32 | 2u32) | 16u32,
    {
        PlannerCapabilities::classical().union(PlannerCapabilities::negative_preconds()).union(
            PlannerCapabilities::conditional_effects(),
        )
    }

    fn solve(&mut self, task: &Task, limits: &SearchLimits) -> (r: Result<SearchOutcome, MiniplanError>)
        ensures
            r is Ok,
            r matches Ok(SearchOutcome::Plan(plan, stats)) ==> plan_outcome_sound(task, &plan, &stats),
            r matches Ok(SearchOutcome::Unsolvable(_)) ==> !solvable(task),
            r matches Ok(SearchOutcome::LimitReached(stats)) ==> (limits.node_budget matches Some(m) && stats.nodes_expanded >= m)
                || limits.time_budget is Some,
    {
        self.run(task, limits)
    }
}

} // verus!
