//! A* search with a pluggable heuristic.

use vstd::prelude::*;
use crate::error::MiniplanError;
use crate::plan::{
    build_plan, copy_path, run_ops, solves, path_cost, capped, lemma_run_push, lemma_run_concat, lemma_runs_stay_inside,
};
use crate::queue::{MinQueue, rank_of, cost_rank, moved, origin};
use crate::search::{
    PlannerCapabilities,
    Heuristic, HValue, Planner, SearchLimits, SearchOutcome, SearchStats, now, elapsed_since,
    duration_at_least, plan_outcome_sound, solvable,
};
use crate::search::bfs::ids_valid;
use crate::table::{KeyMap, TableKey, cost_sum, lemma_insert_measure};
use crate::task::{
    OpId, State, Task, applicable_in, successor, satisfies_goal, lemma_effects_fit, operator_fits,
    lemma_lookup_after_insert, state_space, lemma_distinct_seqs_bound,
};

verus! {

/// A search node: the cost so far, the state, and the path that reached it.
pub struct AstarNode {
    pub g_score: u64,
    pub state: State,
    pub path: Vec<OpId>,
}

/// A queue entry reached its state from the initial state along its path.
pub open spec fn node_ok(task: &Task, node: &AstarNode) -> bool {
    &&& run_ops(task, task.init@, node.path@) == Some(node.state@)
    &&& ids_valid(task, node.path@)
    &&& node.state@.len() == task.facts@.len()
}

/// The rank A* orders a node by: its cost plus the estimate, capped at the
/// largest `u64`, and above every such sum when the estimate is unknown.
pub open spec fn f_rank(g: u64, h: Option<u64>) -> u128 {
    match h {
        Some(x) => capped(g as nat + x as nat) as u128,
        None => 0x1_0000_0000_0000_0000u128,
    }
}

/// The largest rank of a known sum.
pub open spec fn top_rank() -> u128 {
    0xffff_ffff_ffff_ffffu128
}

/// Along every sequence of operators that solves the task, the estimate at
/// each point passed is known and no more than the cost of the rest of the
/// sequence: the estimate never overestimates.
pub open spec fn admissible_estimate(task: &Task, hf: spec_fn(Seq<bool>) -> Option<u64>) -> bool {
    forall|p: Seq<OpId>, e: Seq<OpId>|
        #![trigger solves(task, p + e), run_ops(task, task.init@, p)]
        solves(task, p + e) && run_ops(task, task.init@, p) is Some ==> (hf(run_ops(task, task.init@, p)->0) matches Some(
            h,
        ) && h <= path_cost(task, e))
}

/// The estimate that is zero everywhere never overestimates.
pub proof fn lemma_zero_estimate_admissible(task: &Task)
    ensures
        admissible_estimate(task, |s: Seq<bool>| Some(0u64)),
{
}

/// No sequence of operators solves the task at a capped cost below `c`.
pub open spec fn cheapest(task: &Task, c: u64) -> bool {
    forall|ops: Seq<OpId>| #[trigger] solves(task, ops) ==> c <= capped(path_cost(task, ops))
}

/// The cost of two sequences one after the other is the sum of their costs.
pub proof fn lemma_path_cost_concat(task: &Task, a: Seq<OpId>, b: Seq<OpId>)
    ensures
        path_cost(task, a + b) == path_cost(task, a) + path_cost(task, b),
    decreases b.len(),
{
    if b.len() == 0 {
        assert(a + b =~= a);
    } else {
        lemma_path_cost_concat(task, a, b.drop_last());
        assert((a + b).drop_last() =~= a + b.drop_last());
        assert((a + b).last() == b.last());
    }
}

/// Each successor of `s` by one of the first `m` operators is known at a
/// cost no more than `g` plus the operator's cost.
pub open spec fn expanded_at(task: &Task, gs: &KeyMap<State, u64>, s: Seq<bool>, g: u64, m: int) -> bool {
    forall|k: int|
        0 <= k < m && k < task.operators@.len() && applicable_in(s, #[trigger] task.operators@[k]) ==> gs.lookup(
            successor(s, task.operators@[k]),
        ) is Some && gs.lookup(successor(s, task.operators@[k]))->0 <= capped(g as nat + task.operators@[k].cost as nat)
}

/// Each known state is queued at its known cost, or is no goal and has been
/// expanded at that cost (the state `cur` by its first `m` operators only).
pub open spec fn frontier_ok(task: &Task, gs: &KeyMap<State, u64>, open: Seq<(u128, AstarNode)>, cur: Seq<bool>, m: int) -> bool {
    forall|s: Seq<bool>|
        (#[trigger] gs.lookup(s)) is Some ==> (exists|q: int|
            0 <= q < open.len() && (#[trigger] open[q]).1.state@ == s && open[q].1.g_score == gs.lookup(s)->0) || (
        !satisfies_goal(s, task.goal_pos@, task.goal_neg@) && expanded_at(
            task,
            gs,
            s,
            gs.lookup(s)->0,
            if s == cur { m } else { task.operators@.len() as int },
        ))
}

/// The capped cost of a sequence extended by an existing operator is the
/// capped sum of the capped cost before and the operator's cost.
proof fn lemma_capped_step(task: &Task, p: Seq<OpId>, id: OpId)
    requires
        id.0 < task.operators@.len(),
    ensures
        path_cost(task, p.push(id)) == path_cost(task, p) + task.operators@[id.0 as int].cost,
        capped(path_cost(task, p.push(id))) == capped(
            capped(path_cost(task, p)) as nat + task.operators@[id.0 as int].cost as nat,
        ),
{
    assert(p.push(id).drop_last() =~= p);
    assert(p.push(id).last() == id);
}

/// Along a sequence of operators from the initial state, some point is
/// queued at a cost no more than that of the sequence up to it, or the end
/// is known at no more than the sequence's cost, is no goal and has been
/// expanded.
proof fn lemma_frontier(task: &Task, gs: &KeyMap<State, u64>, open: Seq<(u128, AstarNode)>, cur: Seq<bool>, ops: Seq<OpId>)
    requires
        frontier_ok(task, gs, open, cur, task.operators@.len() as int),
        gs.lookup(task.init@) == Some(0u64),
        run_ops(task, task.init@, ops) is Some,
    ensures
        (exists|i: int, q: int|
            #![trigger open[q], ops.take(i)]
            0 <= i <= ops.len() && 0 <= q < open.len() && open[q].1.state@ == run_ops(
                task,
                task.init@,
                ops.take(i),
            )->0 && open[q].1.g_score <= capped(path_cost(task, ops.take(i)))) || ({
            let t = run_ops(task, task.init@, ops)->0;
            &&& gs.lookup(t) is Some
            &&& gs.lookup(t)->0 <= capped(path_cost(task, ops))
            &&& !satisfies_goal(t, task.goal_pos@, task.goal_neg@)
            &&& expanded_at(task, gs, t, gs.lookup(t)->0, task.operators@.len() as int)
        }),
    decreases ops.len(),
{
    let t = run_ops(task, task.init@, ops)->0;
    if ops.len() == 0 {
        assert(t == task.init@);
        assert(ops.take(0) =~= ops);
        assert(path_cost(task, ops) == 0);
        if exists|q: int| 0 <= q < open.len() && (#[trigger] open[q]).1.state@ == t && open[q].1.g_score == gs.lookup(t)->0 {
            let q = choose|q: int| 0 <= q < open.len() && (#[trigger] open[q]).1.state@ == t && open[q].1.g_score == gs.lookup(t)->0;
            assert(open[q].1.state@ == run_ops(task, task.init@, ops.take(0))->0);
        }
    } else {
        let p = ops.drop_last();
        let id = ops.last();
        assert(p.push(id) =~= ops);
        lemma_run_push(task, task.init@, p, id);
        let s = run_ops(task, task.init@, p)->0;
        lemma_frontier(task, gs, open, cur, p);
        assert forall|i: int| 0 <= i <= p.len() implies #[trigger] ops.take(i) == p.take(i) by {
            assert(ops.take(i) =~= p.take(i));
        }
        if exists|i: int, q: int|
            #![trigger open[q], p.take(i)]
            0 <= i <= p.len() && 0 <= q < open.len() && open[q].1.state@ == run_ops(task, task.init@, p.take(i))->0
                && open[q].1.g_score <= capped(path_cost(task, p.take(i))) {
            let (i, q) = choose|i: int, q: int|
            #![trigger open[q], p.take(i)]
                0 <= i <= p.len() && 0 <= q < open.len() && open[q].1.state@ == run_ops(task, task.init@, p.take(i))->0
                    && open[q].1.g_score <= capped(path_cost(task, p.take(i)));
            assert(ops.take(i) == p.take(i));
        } else {
            let k = id.0 as int;
            lemma_capped_step(task, p, id);
            assert(applicable_in(s, task.operators@[k]));
            assert(t == successor(s, task.operators@[k]));
            assert(gs.lookup(t) is Some);
            assert(ops.take(ops.len() as int) =~= ops);
            if exists|q: int| 0 <= q < open.len() && (#[trigger] open[q]).1.state@ == t && open[q].1.g_score == gs.lookup(t)->0 {
                let q = choose|q: int| 0 <= q < open.len() && (#[trigger] open[q]).1.state@ == t && open[q].1.g_score == gs.lookup(t)->0;
                assert(open[q].1.state@ == run_ops(task, task.init@, ops.take(ops.len() as int))->0);
            }
        }
    }
}

/// With nothing queued, every state reachable from the initial state is
/// known and no goal.
proof fn lemma_all_expanded(task: &Task, gs: &KeyMap<State, u64>, open: Seq<(u128, AstarNode)>, cur: Seq<bool>, ops: Seq<OpId>)
    requires
        open.len() == 0,
        frontier_ok(task, gs, open, cur, task.operators@.len() as int),
        gs.lookup(task.init@) == Some(0u64),
    ensures
        !solves(task, ops),
{
    let inside = |s: Seq<bool>| gs.lookup(s) is Some;
    assert forall|s: Seq<bool>, k: int|
        #![trigger inside(s), task.operators@[k]]
        inside(s) && 0 <= k < task.operators@.len() && applicable_in(s, task.operators@[k])
            implies inside(successor(s, task.operators@[k])) by {
        assert(gs.lookup(s) is Some);
        assert(expanded_at(task, gs, s, gs.lookup(s)->0, task.operators@.len() as int));
    }
    lemma_runs_stay_inside(task, inside, ops);
    if let Some(t) = run_ops(task, task.init@, ops) {
        assert(gs.lookup(t) is Some);
    }
}

/// The known states all have one entry per fact, so there are at most
/// `state_space(n)` of them.
proof fn lemma_known_bound(gs: &KeyMap<State, u64>, n: nat)
    requires
        gs.wf(),
        forall|s: Seq<bool>| (#[trigger] gs.lookup(s)) is Some ==> s.len() == n,
    ensures
        gs.keys().len() <= state_space(n),
{
    gs.lemma_keys_distinct();
    let keys = gs.keys();
    assert forall|i: int| 0 <= i < keys.len() implies (#[trigger] keys[i]).len() == n by {
        assert(gs.position(keys[i]) is Some);
        assert(gs.lookup(keys[i]) is Some);
    }
    lemma_distinct_seqs_bound(keys, n);
}

/// The state being expanded matters only while its operators are not all
/// handled.
proof fn lemma_frontier_any_cur(task: &Task, gs: &KeyMap<State, u64>, open: Seq<(u128, AstarNode)>, cur: Seq<bool>, other: Seq<bool>)
    requires
        frontier_ok(task, gs, open, cur, task.operators@.len() as int),
    ensures
        frontier_ok(task, gs, open, other, task.operators@.len() as int),
{
    assert forall|s: Seq<bool>| (#[trigger] gs.lookup(s)) is Some implies (exists|q: int|
        0 <= q < open.len() && (#[trigger] open[q]).1.state@ == s && open[q].1.g_score == gs.lookup(s)->0) || (
    !satisfies_goal(s, task.goal_pos@, task.goal_neg@) && expanded_at(
        task,
        gs,
        s,
        gs.lookup(s)->0,
        if s == other { task.operators@.len() as int } else { task.operators@.len() as int },
    )) by {
        if !(exists|q: int| 0 <= q < open.len() && (#[trigger] open[q]).1.state@ == s && open[q].1.g_score == gs.lookup(s)->0) {
            assert(expanded_at(task, gs, s, gs.lookup(s)->0, if s == cur { task.operators@.len() as int } else { task.operators@.len() as int }));
        }
    }
}

/// Removing a queue entry keeps every known state queued or expanded when
/// the entry was stale, or when its state, no goal, is the one now being
/// expanded (from its first operator on).
proof fn lemma_frontier_after_pop(
    task: &Task,
    gs: &KeyMap<State, u64>,
    before: Seq<(u128, AstarNode)>,
    after: Seq<(u128, AstarNode)>,
    pi: int,
    cur: Seq<bool>,
)
    requires
        frontier_ok(task, gs, before, cur, task.operators@.len() as int),
        0 <= pi < before.len(),
        after.len() == before.len() - 1,
        forall|j: int| 0 <= j < before.len() && j != pi ==> after[moved(pi, before.len() as int, j)] == before[j],
        gs.lookup(before[pi].1.state@) != Some(before[pi].1.g_score) || (
            !satisfies_goal(before[pi].1.state@, task.goal_pos@, task.goal_neg@)),
    ensures
        gs.lookup(before[pi].1.state@) != Some(before[pi].1.g_score) ==> frontier_ok(
            task,
            gs,
            after,
            cur,
            task.operators@.len() as int,
        ),
        gs.lookup(before[pi].1.state@) == Some(before[pi].1.g_score) ==> frontier_ok(task, gs, after, before[pi].1.state@, 0),
{
    let n = before.len() as int;
    let x = before[pi].1.state@;
    let stale = gs.lookup(x) != Some(before[pi].1.g_score);
    let c2 = if stale { cur } else { x };
    let m2 = if stale { task.operators@.len() as int } else { 0 };
    assert forall|s: Seq<bool>| (#[trigger] gs.lookup(s)) is Some implies (exists|q: int|
        0 <= q < after.len() && (#[trigger] after[q]).1.state@ == s && after[q].1.g_score == gs.lookup(s)->0) || (
    !satisfies_goal(s, task.goal_pos@, task.goal_neg@) && expanded_at(
        task,
        gs,
        s,
        gs.lookup(s)->0,
        if s == c2 { m2 } else { task.operators@.len() as int },
    )) by {
        if !stale && s == x {
            assert(expanded_at(task, gs, s, gs.lookup(s)->0, 0));
        } else if exists|j: int| 0 <= j < n && (#[trigger] before[j]).1.state@ == s && before[j].1.g_score == gs.lookup(s)->0 {
            let j = choose|j: int| 0 <= j < n && (#[trigger] before[j]).1.state@ == s && before[j].1.g_score == gs.lookup(s)->0;
            assert(j != pi);
            let m = moved(pi, n, j);
            assert(after[m] == before[j]);
        } else {
            assert(expanded_at(task, gs, s, gs.lookup(s)->0, if s == cur { task.operators@.len() as int } else { task.operators@.len() as int }));
        }
    }
}

/// Handling operator `k` of the state being expanded without a change of
/// known costs, when its successor is already known cheaply enough.
proof fn lemma_frontier_same(task: &Task, gs: &KeyMap<State, u64>, open: Seq<(u128, AstarNode)>, cur: Seq<bool>, g: u64, k: int)
    requires
        0 <= k < task.operators@.len(),
        frontier_ok(task, gs, open, cur, k),
        gs.lookup(cur) == Some(g),
        applicable_in(cur, task.operators@[k]) ==> gs.lookup(successor(cur, task.operators@[k])) is Some && gs.lookup(
            successor(cur, task.operators@[k]),
        )->0 <= capped(g as nat + task.operators@[k].cost as nat),
    ensures
        frontier_ok(task, gs, open, cur, k + 1),
{
    assert forall|s: Seq<bool>| (#[trigger] gs.lookup(s)) is Some implies (exists|q: int|
        0 <= q < open.len() && (#[trigger] open[q]).1.state@ == s && open[q].1.g_score == gs.lookup(s)->0) || (
    !satisfies_goal(s, task.goal_pos@, task.goal_neg@) && expanded_at(
        task,
        gs,
        s,
        gs.lookup(s)->0,
        if s == cur { k + 1 } else { task.operators@.len() as int },
    )) by {
        if !(exists|q: int| 0 <= q < open.len() && (#[trigger] open[q]).1.state@ == s && open[q].1.g_score == gs.lookup(s)->0) {
            assert(expanded_at(task, gs, s, gs.lookup(s)->0, if s == cur { k } else { task.operators@.len() as int }));
        }
    }
}

/// Lowering the known cost of the successor by operator `k` of the state
/// being expanded to the cost through it, and queuing it at that cost.
proof fn lemma_frontier_after_update(
    task: &Task,
    before: &KeyMap<State, u64>,
    after: &KeyMap<State, u64>,
    prevq: Seq<(u128, AstarNode)>,
    newq: Seq<(u128, AstarNode)>,
    cur: Seq<bool>,
    g: u64,
    k: int,
    next: Seq<bool>,
    new_g: u64,
)
    requires
        0 <= k < task.operators@.len(),
        frontier_ok(task, before, prevq, cur, k),
        before.lookup(cur) == Some(g),
        next != cur,
        next == successor(cur, task.operators@[k]),
        new_g == capped(g as nat + task.operators@[k].cost as nat),
        after.lookup(next) == Some(new_g),
        forall|t: Seq<bool>| t != next ==> #[trigger] after.lookup(t) == before.lookup(t),
        before.lookup(next) is Some ==> new_g < before.lookup(next)->0,
        newq.len() == prevq.len() + 1,
        forall|q: int| 0 <= q < prevq.len() ==> newq[q] == prevq[q],
        newq[prevq.len() as int].1.state@ == next,
        newq[prevq.len() as int].1.g_score == new_g,
    ensures
        frontier_ok(task, after, newq, cur, k + 1),
        after.lookup(cur) == Some(g),
{
    assert forall|s: Seq<bool>| (#[trigger] after.lookup(s)) is Some implies (exists|q: int|
        0 <= q < newq.len() && (#[trigger] newq[q]).1.state@ == s && newq[q].1.g_score == after.lookup(s)->0) || (
    !satisfies_goal(s, task.goal_pos@, task.goal_neg@) && expanded_at(
        task,
        after,
        s,
        after.lookup(s)->0,
        if s == cur { k + 1 } else { task.operators@.len() as int },
    )) by {
        if s == next {
            assert(newq[prevq.len() as int].1.state@ == s);
        } else {
            assert(after.lookup(s) == before.lookup(s));
            if exists|q: int| 0 <= q < prevq.len() && (#[trigger] prevq[q]).1.state@ == s && prevq[q].1.g_score == before.lookup(s)->0 {
                let q = choose|q: int| 0 <= q < prevq.len() && (#[trigger] prevq[q]).1.state@ == s && prevq[q].1.g_score == before.lookup(s)->0;
                assert(newq[q] == prevq[q]);
            } else {
                let m = if s == cur { k } else { task.operators@.len() as int };
                assert(expanded_at(task, before, s, before.lookup(s)->0, m));
                assert forall|kk: int|
                    0 <= kk < (if s == cur { k + 1 } else { task.operators@.len() as int }) && kk < task.operators@.len()
                        && applicable_in(s, #[trigger] task.operators@[kk]) implies after.lookup(successor(s, task.operators@[kk])) is Some
                        && after.lookup(successor(s, task.operators@[kk]))->0 <= capped(after.lookup(s)->0 as nat + task.operators@[kk].cost as nat) by {
                    let t = successor(s, task.operators@[kk]);
                    if s == cur && kk == k {
                        assert(t == next);
                    } else {
                        assert(kk < m);
                        if t == next {
                            assert(after.lookup(t) == Some(new_g));
                        } else {
                            assert(after.lookup(t) == before.lookup(t));
                        }
                    }
                }
            }
        }
    }
}

/// A* expands nodes in order of `f = g + h`, where `g` is the cost from the
/// start and `h` the heuristic estimate to the goal. A state found again at
/// a lower cost is expanded again, so with an estimate that never
/// overestimates the plan found is a cheapest one.
pub struct Astar {
    pub heuristic: Box<dyn Heuristic>,
}

impl Astar {
    /// An A* planner with the given heuristic. The contract does not say
    /// that the field holds the argument: a boxed trait object keeps no
    /// identity in the specification.
    pub fn new(heuristic: Box<dyn Heuristic>) -> (a: Self) {
        Astar { heuristic }
    }

    /// The heuristic's estimate on the states of `task`.
    pub open spec fn estimate_fn(&self, task: &Task) -> spec_fn(Seq<bool>) -> Option<u64> {
        |s: Seq<bool>| self.heuristic.estimate_of(task, s)
    }

    /// Runs the search. A plan it returns solves the task, and is a cheapest
    /// one when the heuristic never overestimates; `Unsolvable` means no
    /// sequence of operators solves it. A state reached again at a lower
    /// cost is queued again, so an expanded state is reopened.
    pub fn run(&self, task: &Task, limits: &SearchLimits) -> (r: Result<SearchOutcome, MiniplanError>)
        requires
            task.well_formed(),
        ensures
            r is Ok,
            r matches Ok(SearchOutcome::Plan(plan, stats)) ==> plan_outcome_sound(task, &plan, &stats),
            r matches Ok(SearchOutcome::Plan(plan, _)) ==> (admissible_estimate(task, self.estimate_fn(task))
                ==> cheapest(task, plan.cost)),
            r matches Ok(SearchOutcome::Unsolvable(_)) ==> !solvable(task),
            r matches Ok(SearchOutcome::LimitReached(stats)) ==> (limits.node_budget matches Some(m) && stats.nodes_expanded >= m)
                || limits.time_budget is Some,
    {
        let ghost hf = self.estimate_fn(task);
        let ghost adm = admissible_estimate(task, hf);
        let start = now();
        let mut stats = SearchStats::zero();
        let n = task.num_facts();
        let nops = task.operators.len();
        let mut open: MinQueue<AstarNode> = MinQueue::new();
        let mut g_scores: KeyMap<State, u64> = KeyMap::new();

        let h = self.heuristic.estimate(task, &task.init);
        open.push(rank_of(h.0), AstarNode { g_score: 0, state: task.init.clone(), path: Vec::new() });
        let ghost empty_g = g_scores;
        g_scores.insert(task.init.clone(), 0);
        proof {
            lemma_lookup_after_insert(&empty_g, &g_scores, task.init@, 0u64);
            assert(open.entries@[0].1.state@ == task.init@);
            assert(path_cost(task, Seq::<OpId>::empty()) == 0);
            assert forall|s: Seq<bool>| (#[trigger] g_scores.lookup(s)) is Some implies (exists|q: int|
                0 <= q < open.entries@.len() && (#[trigger] open.entries@[q]).1.state@ == s && open.entries@[q].1.g_score
                    == g_scores.lookup(s)->0) by {
                assert(s == task.init@);
                assert(open.entries@[0].1.state@ == s);
            }
            assert(frontier_ok(task, &g_scores, open.entries@, task.init@, nops as int));
            lemma_known_bound(&g_scores, n as nat);
        }
        loop
            invariant
                task.well_formed(),
                n == task.facts@.len(),
                nops == task.operators@.len(),
                hf == self.estimate_fn(task),
                adm == admissible_estimate(task, hf),
                g_scores.wf(),
                forall|s: Seq<bool>| (#[trigger] g_scores.lookup(s)) is Some ==> s.len() == n,
                g_scores.keys().len() <= state_space(n as nat),
                forall|q: int| 0 <= q < open.entries@.len() ==> node_ok(task, &(#[trigger] open.entries@[q]).1),
                forall|q: int|
                    0 <= q < open.entries@.len() ==> (#[trigger] open.entries@[q]).1.g_score == capped(
                        path_cost(task, open.entries@[q].1.path@),
                    ),
                forall|q: int|
                    0 <= q < open.entries@.len() ==> (#[trigger] open.entries@[q]).0 == f_rank(
                        open.entries@[q].1.g_score,
                        hf(open.entries@[q].1.state@),
                    ),
                g_scores.lookup(task.init@) == Some(0u64),
                frontier_ok(task, &g_scores, open.entries@, task.init@, nops as int),
            decreases state_space(n as nat) - g_scores.keys().len(), cost_sum(g_scores.values()), open.entries@.len(),
        {
            let ghost before_open = open.entries@;
            let ghost k0 = g_scores.keys().len();
            let ghost c0 = cost_sum(g_scores.values());
            let popped = open.pop_min();
            let (rank, node) = match popped {
                Some(e) => e,
                None => {
                    proof {
                        assert forall|ops: Seq<OpId>| !solves(task, ops) by {
                            lemma_all_expanded(task, &g_scores, open.entries@, task.init@, ops);
                        }
                    }
                    stats.elapsed = elapsed_since(&start);
                    return Ok(SearchOutcome::Unsolvable(stats));
                },
            };
            let ghost pi = choose|i: int|
                0 <= i < before_open.len() && before_open[i] == (popped->0) && (forall|j: int|
                    0 <= j < before_open.len() && j != i ==> open.entries@[moved(i, before_open.len() as int, j)] == before_open[j])
                    && (forall|j: int|
                    0 <= j < before_open.len() - 1 ==> open.entries@[j] == before_open[origin(i, before_open.len() as int, j)]
                        && origin(i, before_open.len() as int, j) != i);
            proof {
                let nq = before_open.len() as int;
                assert(before_open[pi].1 == node);
                assert(before_open[pi].0 == rank);
                assert forall|q: int| 0 <= q < open.entries@.len() implies node_ok(task, &(#[trigger] open.entries@[q]).1)
                    && open.entries@[q].1.g_score == capped(path_cost(task, open.entries@[q].1.path@))
                    && open.entries@[q].0 == f_rank(open.entries@[q].1.g_score, hf(open.entries@[q].1.state@)) by {
                    assert(open.entries@[q] == before_open[origin(pi, nq, q)]);
                }
            }
            let current = match g_scores.get(&node.state) {
                Some(best) => *best == node.g_score,
                None => false,
            };
            if !current {
                proof {
                    lemma_frontier_after_pop(task, &g_scores, before_open, open.entries@, pi, task.init@);
                }
                continue;
            }
            proof {
                if adm && satisfies_goal(node.state@, task.goal_pos@, task.goal_neg@) {
                    assert(solves(task, node.path@));
                    assert forall|ops: Seq<OpId>| #[trigger] solves(task, ops) implies node.g_score <= capped(
                        path_cost(task, ops),
                    ) by {
                        lemma_frontier(task, &g_scores, before_open, task.init@, ops);
                        let t = run_ops(task, task.init@, ops)->0;
                        assert(satisfies_goal(t, task.goal_pos@, task.goal_neg@));
                        let (i, q) = choose|i: int, q: int|
            #![trigger before_open[q], ops.take(i)]
                            0 <= i <= ops.len() && 0 <= q < before_open.len() && before_open[q].1.state@ == run_ops(
                                task,
                                task.init@,
                                ops.take(i),
                            )->0 && before_open[q].1.g_score <= capped(path_cost(task, ops.take(i)));
                        let p = ops.take(i);
                        let e = ops.skip(i);
                        assert(p + e =~= ops);
                        assert(node_ok(task, &before_open[q].1));
                        lemma_run_concat(task, task.init@, p, e);
                        assert(run_ops(task, task.init@, p) is Some);
                        assert(solves(task, p + e));
                        lemma_path_cost_concat(task, p, e);
                        assert(rank <= before_open[q].0);
                    }
                }
            }
            if node.state.satisfies(&task.goal_pos, &task.goal_neg) {
                stats.nodes_expanded = stats.nodes_expanded.saturating_add(1);
                let plan = build_plan(&node.path, task);
                stats.plan_cost = plan.cost;
                stats.plan_length = plan.len();
                stats.elapsed = elapsed_since(&start);
                return Ok(SearchOutcome::Plan(plan, stats));
            }
            proof {
                lemma_frontier_after_pop(task, &g_scores, before_open, open.entries@, pi, task.init@);
            }
            stats.nodes_expanded = stats.nodes_expanded.saturating_add(1);

            if let Some(max_nodes) = limits.node_budget {
                if stats.nodes_expanded >= max_nodes {
                    stats.elapsed = elapsed_since(&start);
                    return Ok(SearchOutcome::LimitReached(stats));
                }
            }

            if let Some(timeout) = &limits.time_budget {
                let spent = elapsed_since(&start);
                if duration_at_least(&spent, timeout) {
                    stats.elapsed = elapsed_since(&start);
                    return Ok(SearchOutcome::LimitReached(stats));
                }
            }

            let ghost o0 = before_open.len();
            for k in 0..nops
                invariant
                    nops == task.operators@.len(),
                    task.well_formed(),
                    n == task.facts@.len(),
                    hf == self.estimate_fn(task),
                    adm == admissible_estimate(task, hf),
                    node_ok(task, &node),
                    node.g_score == capped(path_cost(task, node.path@)),
                    !satisfies_goal(node.state@, task.goal_pos@, task.goal_neg@),
                    g_scores.wf(),
                    forall|s: Seq<bool>| (#[trigger] g_scores.lookup(s)) is Some ==> s.len() == n,
                    g_scores.lookup(node.state@) == Some(node.g_score),
                    forall|q: int| 0 <= q < open.entries@.len() ==> node_ok(task, &(#[trigger] open.entries@[q]).1),
                    forall|q: int|
                        0 <= q < open.entries@.len() ==> (#[trigger] open.entries@[q]).1.g_score == capped(
                            path_cost(task, open.entries@[q].1.path@),
                        ),
                    forall|q: int|
                        0 <= q < open.entries@.len() ==> (#[trigger] open.entries@[q]).0 == f_rank(
                            open.entries@[q].1.g_score,
                            hf(open.entries@[q].1.state@),
                        ),
                    g_scores.lookup(task.init@) == Some(0u64),
                    frontier_ok(task, &g_scores, open.entries@, node.state@, k as int),
                    g_scores.keys().len() >= k0,
                    g_scores.keys().len() == k0 ==> cost_sum(g_scores.values()) <= c0,
                    g_scores.keys().len() == k0 && cost_sum(g_scores.values()) == c0 ==> open.entries@.len() < o0,
            {
                let op = &task.operators[k];
                if node.state.applicable(op) {
                    proof {
                        assert(operator_fits(task.operators@[k as int], n as nat));
                        lemma_effects_fit(node.state@, *op, n as nat);
                    }
                    let next = node.state.apply(op);
                    let new_g = node.g_score.saturating_add(op.cost as u64);
                    let improves = match g_scores.get(&next) {
                        Some(existing) => new_g < *existing,
                        None => true,
                    };
                    if !improves {
                        proof {
                            lemma_frontier_same(task, &g_scores, open.entries@, node.state@, node.g_score, k as int);
                        }
                    } else {
                        let ghost old_g = g_scores;
                        g_scores.insert(next.clone(), new_g);
                        stats.nodes_generated = stats.nodes_generated.saturating_add(1);
                        let hv = self.heuristic.estimate(task, &next);
                        let f = match hv.0 {
                            Some(x) => Some(new_g.saturating_add(x)),
                            None => None,
                        };
                        let mut new_path = copy_path(&node.path);
                        new_path.push(op.id);
                        let ghost prevq = open.entries@;
                        open.push(rank_of(f), AstarNode { g_score: new_g, state: next, path: new_path });
                        proof {
                            lemma_lookup_after_insert(&old_g, &g_scores, next@, new_g);
                            lemma_insert_measure(&old_g, &g_scores, next@, new_g);
                            lemma_run_push(task, task.init@, node.path@, op.id);
                            lemma_capped_step(task, node.path@, op.id);
                            let nq = prevq.len() as int;
                            let e = open.entries@[nq];
                            assert(e.1.state@ == next@);
                            assert(e.1.path@ == node.path@.push(op.id));
                            assert(node_ok(task, &e.1));
                            assert forall|q: int| 0 <= q < open.entries@.len() implies node_ok(task, &(#[trigger] open.entries@[q]).1)
                                && open.entries@[q].1.g_score == capped(path_cost(task, open.entries@[q].1.path@))
                                && open.entries@[q].0 == f_rank(open.entries@[q].1.g_score, hf(open.entries@[q].1.state@)) by {
                                if q < nq {
                                    assert(open.entries@[q] == prevq[q]);
                                }
                            }
                            assert(next@ != node.state@);
                            lemma_frontier_after_update(
                                task,
                                &old_g,
                                &g_scores,
                                prevq,
                                open.entries@,
                                node.state@,
                                node.g_score,
                                k as int,
                                next@,
                                new_g,
                            );
                        }
                    }
                } else {
                    proof {
                        lemma_frontier_same(task, &g_scores, open.entries@, node.state@, node.g_score, k as int);
                    }
                }
            }
            proof {
                lemma_frontier_any_cur(task, &g_scores, open.entries@, node.state@, task.init@);
                lemma_known_bound(&g_scores, n as nat);
            }
        }
    }
}

impl Planner for Astar {
    fn name(&self) -> (r: &'static str)
        ensures
            r@ == "astar"@,
    {
        "astar"
    }

    fn describe(&self) -> (r: &'static str)
        ensures
            r@ == "A* search with pluggable heuristic"@,
    {
        "A* search with pluggable heuristic"
    }

    fn capabilities(&self) -> (c: PlannerCapabilities)
        ensures
            c.bits == ((1u32 | 2u32) | 16u32) | 32u32,
    {
        PlannerCapabilities::classical().union(PlannerCapabilities::negative_preconds()).union(
            PlannerCapabilities::conditional_effects(),
        ).union(PlannerCapabilities::action_costs())
    }

    fn solve(&mut self, task: &Task, limits: &SearchLimits) -> (r: Result<SearchOutcome, MiniplanError>)
        ensures
            r is Ok,
            r matches Ok(SearchOutcome::Plan(plan, stats)) ==> plan_outcome_sound(task, &plan, &stats),
            r matches Ok(SearchOutcome::Plan(plan, _)) ==> (admissible_estimate(task, old(self).estimate_fn(task))
                ==> cheapest(task, plan.cost)),
            r matches Ok(SearchOutcome::Unsolvable(_)) ==> !solvable(task),
            r matches Ok(SearchOutcome::LimitReached(stats)) ==> (limits.node_budget matches Some(m) && stats.nodes_expanded >= m)
                || limits.time_budget is Some,
    {
        self.run(task, limits)
    }
}

} // verus!
