//! Breadth-first search.

use vstd::prelude::*;
use std::collections::VecDeque;
use crate::error::MiniplanError;
use crate::plan::{build_plan, copy_path, run_ops, solves, step, lemma_run_push, lemma_runs_stay_inside};
use crate::search::{
    PlannerCapabilities,
    Planner, SearchLimits, SearchOutcome, SearchStats, now, elapsed_since, duration_at_least,
    plan_outcome_sound, solvable,
};
use crate::table::{IndexTable, TableKey};
use crate::task::{
    OpId, State, Task, applicable_in, successor, satisfies_goal, lemma_effects_fit, operator_fits,
    state_space, lemma_table_bound,
};

verus! {

/// Breadth-first search over states, from the initial state.
pub struct Bfs {}

impl Bfs {
    pub fn new() -> (b: Self)
        ensures
            b == (Bfs {}),
    {
        Bfs {}
    }
}

/// The state `s` is stored in the table.
pub open spec fn stored(t: &IndexTable<State>, s: Seq<bool>) -> bool {
    exists|i: int| 0 <= i < t.entries().len() && (#[trigger] t.entries()[i])@ == s
}

/// No sequence of operators shorter than `n` solves the task.
pub open spec fn shortest(task: &Task, n: nat) -> bool {
    forall|ops: Seq<OpId>| #[trigger] solves(task, ops) ==> n <= ops.len()
}

/// Every operator ID of a path names an operator of the task.
pub open spec fn ids_valid(task: &Task, path: Seq<OpId>) -> bool {
    forall|k: int| 0 <= k < path.len() ==> (#[trigger] path[k]).0 < task.operators@.len()
}

impl Bfs {
    /// Runs the search. A plan it returns solves the task; `Unsolvable`
    /// means no sequence of operators solves it.
    pub fn run(&mut self, task: &Task, limits: &SearchLimits) -> (r: Result<SearchOutcome, MiniplanError>)
        requires
            task.well_formed(),
        ensures
            r is Ok,
            r matches Ok(SearchOutcome::Plan(plan, stats)) ==> plan_outcome_sound(task, &plan, &stats),
            r matches Ok(SearchOutcome::Unsolvable(_)) ==> !solvable(task),
            r matches Ok(SearchOutcome::Plan(plan, _)) ==> shortest(task, plan.steps@.len()),
            r matches Ok(SearchOutcome::LimitReached(stats)) ==> (limits.node_budget matches Some(m) && stats.nodes_expanded >= m)
                || limits.time_budget is Some,
    {
        let start = now();
        let mut stats = SearchStats::zero();
        let n = task.num_facts();
        let mut queue: VecDeque<(State, Vec<OpId>)> = VecDeque::new();
        let mut closed: IndexTable<State> = IndexTable::new();
        queue.push_back((task.init.clone(), Vec::new()));
        closed.insert(task.init.clone());
        let ghost mut expanded: Set<Seq<bool>> = Set::empty();
        let ghost mut dep: Map<Seq<bool>, nat> = map![task.init@ => 0nat];
        let ghost mut level: nat = 0;
        assert(closed.entries()[0]@ == task.init@);
        assert(queue@[0].0@ == closed.entries()[0]@);
        loop
            invariant
                task.well_formed(),
                n == task.facts@.len(),
                closed.wf(),
                forall|i: int| 0 <= i < closed.entries().len() ==> (#[trigger] closed.entries()[i])@.len() == n,
                forall|q: int|
                    0 <= q < queue@.len() ==> {
                        &&& run_ops(task, task.init@, (#[trigger] queue@[q]).1@) == Some(queue@[q].0@)
                        &&& ids_valid(task, queue@[q].1@)
                        &&& queue@[q].0@.len() == n
                    },
                forall|i: int|
                    0 <= i < closed.entries().len() ==> expanded.contains((#[trigger] closed.entries()[i])@)
                        || exists|q: int| 0 <= q < queue@.len() && (#[trigger] queue@[q]).0@ == closed.entries()[i]@,
                forall|s: Seq<bool>|
                    #[trigger] expanded.contains(s) ==> !satisfies_goal(s, task.goal_pos@, task.goal_neg@)
                        && forall|k: int|
                        0 <= k < task.operators@.len() && applicable_in(s, #[trigger] task.operators@[k])
                            ==> stored(&closed, successor(s, task.operators@[k])),
                stored(&closed, task.init@),
                stats.nodes_expanded + queue@.len() == closed.entries().len(),
                stats.nodes_generated + 1 == closed.entries().len(),
                forall|q: int|
                    0 <= q < queue@.len() ==> dep.contains_key((#[trigger] queue@[q]).0@) && dep[queue@[q].0@]
                        == queue@[q].1@.len() && level <= queue@[q].1@.len() <= level + 1,
                forall|q1: int, q2: int|
                    0 <= q1 <= q2 < queue@.len() ==> (#[trigger] queue@[q1]).1@.len() <= (#[trigger] queue@[q2]).1@.len(),
                forall|i: int|
                    0 <= i < closed.entries().len() ==> dep.contains_key((#[trigger] closed.entries()[i])@)
                        && dep[closed.entries()[i]@] <= level + 1,
                forall|s: Seq<bool>| #[trigger] dep.contains_key(s) ==> stored(&closed, s),
                forall|s: Seq<bool>|
                    #[trigger] expanded.contains(s) ==> dep.contains_key(s) && dep[s] <= level && forall|k: int|
                        0 <= k < task.operators@.len() && applicable_in(s, #[trigger] task.operators@[k])
                            ==> dep.contains_key(successor(s, task.operators@[k])) && dep[successor(
                            s,
                            task.operators@[k],
                        )] <= dep[s] + 1,
                forall|ops: Seq<OpId>|
                    ops.len() <= level && #[trigger] run_ops(task, task.init@, ops) is Some ==> dep.contains_key(
                        run_ops(task, task.init@, ops)->Some_0,
                    ) && dep[run_ops(task, task.init@, ops)->Some_0] <= ops.len(),
            decreases state_space(n as nat) - stats.nodes_expanded,
        {
            let ghost old_queue = queue@;
            let cl = closed.len();
            let popped = queue.pop_front();
            let (state, path) = match popped {
                Some(entry) => entry,
                None => {
                    proof {
                        assert forall|s: Seq<bool>, k: int|
                            #![trigger stored(&closed, s), task.operators@[k]]
                            stored(&closed, s) && 0 <= k < task.operators@.len()
                                && applicable_in(s, task.operators@[k])
                                implies stored(&closed, successor(s, task.operators@[k])) by {
                            let i = choose|i: int| 0 <= i < closed.entries().len() && (#[trigger] closed.entries()[i])@ == s;
                            assert(expanded.contains(closed.entries()[i]@));
                        }
                        assert forall|ops: Seq<OpId>| !solves(task, ops) by {
                            lemma_runs_stay_inside(task, |s: Seq<bool>| stored(&closed, s), ops);
                            if let Some(t) = run_ops(task, task.init@, ops) {
                                let i = choose|i: int| 0 <= i < closed.entries().len() && (#[trigger] closed.entries()[i])@ == t;
                                assert(expanded.contains(closed.entries()[i]@));
                            }
                        }
                    }
                    stats.elapsed = elapsed_since(&start);
                    return Ok(SearchOutcome::Unsolvable(stats));
                },
            };
            assert(state@ == old_queue[0].0@);
            let ghost d: nat = path@.len();
            proof {
                assert(path@ == old_queue[0].1@);
                if d == level + 1 {
                    assert forall|ops: Seq<OpId>|
                        ops.len() <= d && #[trigger] run_ops(task, task.init@, ops) is Some implies dep.contains_key(
                            run_ops(task, task.init@, ops)->Some_0,
                        ) && dep[run_ops(task, task.init@, ops)->Some_0] <= ops.len() by {
                        if ops.len() > level {
                            let ops1 = ops.drop_last();
                            assert(run_ops(task, task.init@, ops1) is Some);
                            let t1 = run_ops(task, task.init@, ops1)->Some_0;
                            assert(dep.contains_key(t1) && dep[t1] <= level);
                            assert(stored(&closed, t1));
                            let i = choose|i: int| 0 <= i < closed.entries().len() && (#[trigger] closed.entries()[i])@ == t1;
                            if !expanded.contains(t1) {
                                let q = choose|q: int| 0 <= q < old_queue.len() && (#[trigger] old_queue[q]).0@ == closed.entries()[i]@;
                                assert(old_queue[0].1@.len() <= old_queue[q].1@.len());
                                assert(false);
                            }
                            let k = ops.last().0 as int;
                            assert(step(task, t1, ops.last()) is Some);
                            assert(applicable_in(t1, task.operators@[k]));
                            assert(run_ops(task, task.init@, ops)->Some_0 == successor(t1, task.operators@[k]));
                        }
                    }
                }
                level = d;
            }
            assert forall|i: int|
                0 <= i < closed.entries().len() implies expanded.contains((#[trigger] closed.entries()[i])@)
                    || closed.entries()[i]@ == state@
                    || exists|q: int| 0 <= q < queue@.len() && (#[trigger] queue@[q]).0@ == closed.entries()[i]@ by {
                if !expanded.contains(closed.entries()[i]@) {
                    let q = choose|q: int| 0 <= q < old_queue.len() && (#[trigger] old_queue[q]).0@ == closed.entries()[i]@;
                    if q > 0 {
                        assert(queue@[q - 1] == old_queue[q]);
                    }
                }
            }
            stats.nodes_expanded = stats.nodes_expanded + 1;

            if state.satisfies(&task.goal_pos, &task.goal_neg) {
                proof {
                    assert forall|ops: Seq<OpId>| #[trigger] solves(task, ops) implies d <= ops.len() by {
                        if ops.len() < d {
                            assert(run_ops(task, task.init@, ops) is Some);
                            let t = run_ops(task, task.init@, ops)->Some_0;
                            assert(dep.contains_key(t) && dep[t] <= ops.len());
                            assert(stored(&closed, t));
                            let i = choose|i: int| 0 <= i < closed.entries().len() && (#[trigger] closed.entries()[i])@ == t;
                            if expanded.contains(t) {
                                assert(!satisfies_goal(t, task.goal_pos@, task.goal_neg@));
                            } else if t == state@ {
                                assert(dep[state@] == d);
                            } else {
                                let q = choose|q: int| 0 <= q < queue@.len() && (#[trigger] queue@[q]).0@ == closed.entries()[i]@;
                                assert(queue@[q] == old_queue[q + 1]);
                                assert(old_queue[0].1@.len() <= old_queue[q + 1].1@.len());
                            }
                        }
                    }
                }
                let plan = build_plan(&path, task);
                stats.plan_cost = plan.cost;
                stats.plan_length = plan.len();
                stats.elapsed = elapsed_since(&start);
                return Ok(SearchOutcome::Plan(plan, stats));
            }

            if let Some(max_nodes) = limits.node_budget {
                if stats.nodes_expanded >= max_nodes {
                    stats.elapsed = elapsed_since(&start);
                    return Ok(SearchOutcome::LimitReached(stats));
                }
            }

            if let Some(timeout) = &limits.time_budget {
                let spent = elapsed_since(&start);
                if duration_at_least(&spent, timeout) {
                    stats.elapsed = elapsed_since(&start);
                    return Ok(SearchOutcome::LimitReached(stats));
                }
            }

            let nops = task.operators.len();
            let ghost ne = stats.nodes_expanded;
            for k in 0..nops
                invariant
                    stats.nodes_expanded == ne,
                    nops == task.operators@.len(),
                    task.well_formed(),
                    n == task.facts@.len(),
                    state@.len() == n,
                    run_ops(task, task.init@, path@) == Some(state@),
                    ids_valid(task, path@),
                    !satisfies_goal(state@, task.goal_pos@, task.goal_neg@),
                    closed.wf(),
                    forall|i: int| 0 <= i < closed.entries().len() ==> (#[trigger] closed.entries()[i])@.len() == n,
                    forall|q: int|
                        0 <= q < queue@.len() ==> {
                            &&& run_ops(task, task.init@, (#[trigger] queue@[q]).1@) == Some(queue@[q].0@)
                            &&& ids_valid(task, queue@[q].1@)
                            &&& queue@[q].0@.len() == n
                        },
                    forall|i: int|
                        0 <= i < closed.entries().len() ==> expanded.contains((#[trigger] closed.entries()[i])@)
                            || closed.entries()[i]@ == state@
                            || exists|q: int| 0 <= q < queue@.len() && (#[trigger] queue@[q]).0@ == closed.entries()[i]@,
                    forall|s: Seq<bool>|
                        #[trigger] expanded.contains(s) ==> !satisfies_goal(s, task.goal_pos@, task.goal_neg@)
                            && forall|j: int|
                            0 <= j < task.operators@.len() && applicable_in(s, #[trigger] task.operators@[j])
                                ==> stored(&closed, successor(s, task.operators@[j])),
                    forall|j: int|
                        0 <= j < k && applicable_in(state@, #[trigger] task.operators@[j])
                            ==> stored(&closed, successor(state@, task.operators@[j])),
                    stored(&closed, task.init@),
                    stats.nodes_expanded + queue@.len() == closed.entries().len(),
                    stats.nodes_generated + 1 == closed.entries().len(),
                    path@.len() == d,
                    level == d,
                    dep.contains_key(state@),
                    dep[state@] == d,
                    forall|q: int|
                        0 <= q < queue@.len() ==> dep.contains_key((#[trigger] queue@[q]).0@) && dep[queue@[q].0@]
                            == queue@[q].1@.len() && level <= queue@[q].1@.len() <= level + 1,
                    forall|q1: int, q2: int|
                        0 <= q1 <= q2 < queue@.len() ==> (#[trigger] queue@[q1]).1@.len() <= (#[trigger] queue@[q2]).1@.len(),
                    forall|i: int|
                        0 <= i < closed.entries().len() ==> dep.contains_key((#[trigger] closed.entries()[i])@)
                            && dep[closed.entries()[i]@] <= level + 1,
                    forall|s: Seq<bool>| #[trigger] dep.contains_key(s) ==> stored(&closed, s),
                    forall|s: Seq<bool>|
                        #[trigger] expanded.contains(s) ==> dep.contains_key(s) && dep[s] <= level && forall|j: int|
                            0 <= j < task.operators@.len() && applicable_in(s, #[trigger] task.operators@[j])
                                ==> dep.contains_key(successor(s, task.operators@[j])) && dep[successor(
                                s,
                                task.operators@[j],
                            )] <= dep[s] + 1,
                    forall|ops: Seq<OpId>|
                        ops.len() <= level && #[trigger] run_ops(task, task.init@, ops) is Some ==> dep.contains_key(
                            run_ops(task, task.init@, ops)->Some_0,
                        ) && dep[run_ops(task, task.init@, ops)->Some_0] <= ops.len(),
                    forall|j: int|
                        0 <= j < k && applicable_in(state@, #[trigger] task.operators@[j]) ==> dep.contains_key(
                            successor(state@, task.operators@[j]),
                        ) && dep[successor(state@, task.operators@[j])] <= d + 1,
            {
                let op = &task.operators[k];
                if state.applicable(op) {
                    proof {
                        assert(operator_fits(task.operators@[k as int], n as nat));
                        lemma_effects_fit(state@, *op, n as nat);
                    }
                    let next = state.apply(op);
                    match closed.find(&next) {
                        Some(_) => {},
                        None => {
                            let cl2 = closed.len();
                            let ghost before = closed.entries();
                            proof {
                                if dep.contains_key(next@) {
                                    assert(stored(&closed, next@));
                                    let i = choose|i: int| 0 <= i < closed.entries().len() && (#[trigger] closed.entries()[i])@ == next@;
                                    assert(closed.entries()[i].key_view() == next.key_view());
                                }
                            }
                            closed.insert(next.clone());
                            proof {
                                dep = dep.insert(next@, d + 1);
                            }
                            stats.nodes_generated = stats.nodes_generated + 1;
                            let mut new_path = copy_path(&path);
                            new_path.push(op.id);
                            proof {
                                lemma_run_push(task, task.init@, path@, op.id);
                                assert(closed.entries()[before.len() as int]@ == next@);
                                assert forall|i: int| 0 <= i < before.len() implies closed.entries()[i] == before[i] by {}
                            }
                            let ghost qlen = queue@.len();
                            let ghost prevq = queue@;
                            queue.push_back((next, new_path));
                            proof {
                                assert(queue@[qlen as int].0@ == closed.entries()[before.len() as int]@);
                                assert forall|i: int|
                                    0 <= i < closed.entries().len() implies expanded.contains((#[trigger] closed.entries()[i])@)
                                        || closed.entries()[i]@ == state@
                                        || exists|q: int| 0 <= q < queue@.len() && (#[trigger] queue@[q]).0@ == closed.entries()[i]@ by {
                                    if i < before.len() {
                                        if !expanded.contains(closed.entries()[i]@) && closed.entries()[i]@ != state@ {
                                            let q = choose|q: int| 0 <= q < prevq.len() && (#[trigger] prevq[q]).0@ == before[i]@;
                                            assert(queue@[q] == prevq[q]);
                                        }
                                    } else {
                                        assert(queue@[qlen as int].0@ == closed.entries()[i]@);
                                    }
                                }
                            }
                        },
                    }
                }
            }
            proof {
                expanded = expanded.insert(state@);
                lemma_table_bound(&closed, n as nat);
            }
        }
    }
}

impl Planner for Bfs {
    fn name(&self) -> (r: &'static str)
        ensures
            r@ == "bfs"@,
    {
        "bfs"
    }

    fn describe(&self) -> (r: &'static str)
        ensures
            r@ == "Breadth-first search planner"@,
    {
        "Breadth-first search planner"
    }

    fn capabilities(&self) -> (c: PlannerCapabilities)
        ensures
            c.bits == 1u32 | 2u32,
    {
        PlannerCapabilities::classical().union(PlannerCapabilities::negative_preconds())
    }

    fn solve(&mut self, task: &Task, limits: &SearchLimits) -> (r: Result<SearchOutcome, MiniplanError>)
        ensures
            r is Ok,
            r matches Ok(SearchOutcome::Plan(plan, stats)) ==> plan_outcome_sound(task, &plan, &stats),
            r matches Ok(SearchOutcome::Unsolvable(_)) ==> !solvable(task),
            r matches Ok(SearchOutcome::Plan(plan, _)) ==> shortest(task, plan.steps@.len()),
            r matches Ok(SearchOutcome::LimitReached(stats)) ==> (limits.node_budget matches Some(m) && stats.nodes_expanded >= m)
                || limits.time_budget is Some,
    {
        self.run(task, limits)
    }
}

} // verus!
