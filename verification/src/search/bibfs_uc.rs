//! Bidirectional breadth-first search: forward from the initial state,
//! backward by regression from the goal, layer by layer, until a state meets
//! a subgoal. Every operator counts as one step; costs are not weighed.

use vstd::prelude::*;
use crate::error::MiniplanError;
use crate::plan::{Plan, run_ops, solves, lemma_run_push, lemma_runs_stay_inside};
use crate::search::{
    PlannerCapabilities,
    Planner, SearchLimits, SearchOutcome, SearchStats, now, elapsed_since, duration_at_least,
    plan_outcome_sound, solvable,
};
use crate::search::bfs::{stored, ids_valid};
use crate::search::regression::{
    no_conditional_effects, has_conditional_effects, is_relevant, is_consistent, regress_subgoal,
    regress_pos, regress_neg, leads_to_goal, lemma_regress, forward_links, backward_links,
    meet_plan, searching,
};
use crate::table::{IndexTable, Subgoal};
use crate::task::{
    OpId, State, Task, applicable_in, successor, satisfies_goal, fits, lemma_effects_fit,
    operator_fits, state_space, lemma_table_bound, lemma_subgoal_table_bound,
};

verus! {

/// Bidirectional breadth-first search (uniform cost).
pub struct BibfsUc {}

impl BibfsUc {
    pub fn new() -> (b: Self)
        ensures
            b == (BibfsUc {}),
    {
        BibfsUc {}
    }
}

/// Every forward entry is reached from the initial state along its path.
pub open spec fn forward_reached(task: &Task, states: &IndexTable<State>, paths: Seq<Seq<OpId>>) -> bool {
    &&& paths.len() == states.entries().len()
    &&& forall|i: int|
        0 <= i < states.entries().len() ==> {
            &&& run_ops(task, task.init@, #[trigger] paths[i]) == Some(states.entries()[i]@)
            &&& ids_valid(task, paths[i])
            &&& states.entries()[i]@.len() == task.facts@.len()
        }
}

/// Every backward entry is a subgoal over the task's facts that leads to the
/// goal along its path.
pub open spec fn backward_sound(task: &Task, goals: &IndexTable<Subgoal>, paths: Seq<Seq<OpId>>) -> bool {
    &&& paths.len() == goals.entries().len()
    &&& forall|j: int|
        0 <= j < goals.entries().len() ==> {
            &&& leads_to_goal(task, goals.entries()[j].pos@, goals.entries()[j].neg@, #[trigger] paths[j])
            &&& ids_valid(task, paths[j])
            &&& fits(goals.entries()[j].pos@, task.facts@.len())
            &&& fits(goals.entries()[j].neg@, task.facts@.len())
        }
}

/// The position of a stored subgoal that the state satisfies, if any.
pub fn find_met_subgoal(s: &State, goals: &IndexTable<Subgoal>) -> (r: Option<usize>)
    ensures
        match r {
            Some(j) => j < goals.entries().len() && satisfies_goal(s@, goals.entries()[j as int].pos@, goals.entries()[j as int].neg@),
            None => forall|j: int| 0 <= j < goals.entries().len()
                ==> !satisfies_goal(s@, (#[trigger] goals.entries()[j]).pos@, goals.entries()[j].neg@),
        },
{
    let m = goals.len();
    for j in 0..m
        invariant
            m == goals.entries().len(),
            forall|jj: int| 0 <= jj < j
                ==> !satisfies_goal(s@, (#[trigger] goals.entries()[jj]).pos@, goals.entries()[jj].neg@),
    {
        let sg = goals.get(j);
        if s.satisfies(&sg.pos, &sg.neg) {
            return Some(j);
        }
    }
    None
}

/// The position of a stored state that satisfies the subgoal, if any.
pub fn find_meeting_state(sg: &Subgoal, states: &IndexTable<State>) -> (r: Option<usize>)
    ensures
        match r {
            Some(i) => i < states.entries().len() && satisfies_goal(states.entries()[i as int]@, sg.pos@, sg.neg@),
            None => forall|i: int| 0 <= i < states.entries().len()
                ==> !satisfies_goal((#[trigger] states.entries()[i])@, sg.pos@, sg.neg@),
        },
{
    let m = states.len();
    for i in 0..m
        invariant
            m == states.entries().len(),
            forall|ii: int| 0 <= ii < i ==> !satisfies_goal((#[trigger] states.entries()[ii])@, sg.pos@, sg.neg@),
    {
        let s = states.get(i);
        if s.satisfies(&sg.pos, &sg.neg) {
            return Some(i);
        }
    }
    None
}

impl BibfsUc {
    /// Runs the search. Operators with conditional effects are refused; a
    /// task whose initial state satisfies the goal gets the empty plan; a
    /// returned plan solves the task; `Unsolvable` means nothing solves it.
    pub fn run(&mut self, task: &Task, limits: &SearchLimits) -> (r: Result<SearchOutcome, MiniplanError>)
        requires
            task.well_formed(),
        ensures
            r is Err <==> !no_conditional_effects(task),
            r matches Err(e) ==> e is UnsupportedConditionalEffects,
            no_conditional_effects(task) && satisfies_goal(task.init@, task.goal_pos@, task.goal_neg@)
                ==> (r matches Ok(SearchOutcome::Plan(p, _)) && p.steps@.len() == 0),
            r matches Ok(SearchOutcome::Plan(plan, stats)) ==> plan_outcome_sound(task, &plan, &stats),
            r matches Ok(SearchOutcome::Unsolvable(_)) ==> !solvable(task),
            r matches Ok(SearchOutcome::LimitReached(stats)) ==> (limits.node_budget matches Some(m) && stats.nodes_expanded >= m)
                || limits.time_budget is Some,
    {
        let start = now();
        let mut stats = SearchStats::zero();
        if has_conditional_effects(task) {
            return Err(MiniplanError::UnsupportedConditionalEffects);
        }
        if task.init.satisfies(&task.goal_pos, &task.goal_neg) {
            stats.elapsed = elapsed_since(&start);
            let plan = Plan::new();
            proof {
                assert(plan.ops() =~= Seq::<OpId>::empty());
            }
            return Ok(SearchOutcome::Plan(plan, stats));
        }
        let n = task.num_facts();

        let mut fstates: IndexTable<State> = IndexTable::new();
        let mut fparent: Vec<Option<(usize, OpId)>> = Vec::new();
        fstates.insert(task.init.clone());
        fparent.push(None);
        let ghost mut fpaths: Seq<Seq<OpId>> = seq![Seq::<OpId>::empty()];
        let mut fhead: usize = 0;
        let mut fmark: usize = 1;

        let mut bgoals: IndexTable<Subgoal> = IndexTable::new();
        let mut bparent: Vec<Option<(usize, OpId)>> = Vec::new();
        bgoals.insert(Subgoal { pos: task.goal_pos.clone(), neg: task.goal_neg.clone() });
        bparent.push(None);
        let ghost mut bpaths: Seq<Seq<OpId>> = seq![Seq::<OpId>::empty()];
        let mut bhead: usize = 0;
        let mut bmark: usize = 1;
        proof {
            assert(fstates.entries()[0]@ == task.init@);
            assert(run_ops(task, task.init@, fpaths[0]) == Some(task.init@));
            assert(bgoals.entries()[0].pos@ == task.goal_pos@);
            assert(leads_to_goal(task, task.goal_pos@, task.goal_neg@, bpaths[0]));
        }

        proof {
            lemma_table_bound(&fstates, n as nat);
            lemma_subgoal_table_bound(&bgoals, n as nat);
        }
        loop
            invariant
                forall|jj: int| 1 <= jj < bgoals.entries().len() ==> (#[trigger] bgoals.entries()[jj]).pos@.len() == n && bgoals.entries()[jj].neg@.len() == n,
                fhead <= fstates.entries().len() <= state_space(n as nat),
                bhead <= bgoals.entries().len() <= state_space(2 * n as nat) + 1,
                searching(task),
                n == task.facts@.len(),
                fstates.wf(),
                bgoals.wf(),
                forward_links(fparent@, fpaths),
                forward_reached(task, &fstates, fpaths),
                backward_links(bparent@, bpaths),
                backward_sound(task, &bgoals, bpaths),
                fstates.entries().len() > 0,
                bgoals.entries().len() > 0,
                fstates.entries()[0]@ == task.init@,
                bgoals.entries().len() > 0,
                bgoals.entries()[0].pos@ == task.goal_pos@,
                bgoals.entries()[0].neg@ == task.goal_neg@,
                fhead <= fmark,
                fmark == fstates.entries().len(),
                bhead <= bmark,
                bmark == bgoals.entries().len(),
                forall|i: int|
                    0 <= i < fhead ==> forall|k: int|
                        0 <= k < task.operators@.len() && applicable_in((#[trigger] fstates.entries()[i])@, #[trigger] task.operators@[k])
                            ==> stored(&fstates, successor(fstates.entries()[i]@, task.operators@[k])),
                forall|i: int| 0 <= i < fmark ==> !satisfies_goal((#[trigger] fstates.entries()[i])@, task.goal_pos@, task.goal_neg@),
            decreases (state_space(n as nat) - fhead) + (state_space(2 * n as nat) + 1 - bhead),
        {
            let ghost fh0 = fhead;
            let ghost bh0 = bhead;
            let forward_empty = fhead == fmark;
            let backward_empty = bhead == bmark;
            if forward_empty && backward_empty {
                proof {
                    assert forall|s: Seq<bool>, k: int|
                        #![trigger stored(&fstates, s), task.operators@[k]]
                        stored(&fstates, s) && 0 <= k < task.operators@.len() && applicable_in(s, task.operators@[k])
                            implies stored(&fstates, successor(s, task.operators@[k])) by {
                        let i = choose|i: int| 0 <= i < fstates.entries().len() && (#[trigger] fstates.entries()[i])@ == s;
                    }
                    assert(stored(&fstates, task.init@)) by {
                        assert(fstates.entries()[0]@ == task.init@);
                    }
                    assert forall|ops: Seq<OpId>| !solves(task, ops) by {
                        lemma_runs_stay_inside(task, |s: Seq<bool>| stored(&fstates, s), ops);
                        if let Some(t) = run_ops(task, task.init@, ops) {
                            let i = choose|i: int| 0 <= i < fstates.entries().len() && (#[trigger] fstates.entries()[i])@ == t;
                        }
                    }
                }
                stats.elapsed = elapsed_since(&start);
                return Ok(SearchOutcome::Unsolvable(stats));
            }

            if !forward_empty {
                let layer = fmark - fhead;
                for _step in 0..layer
                    invariant
                        searching(task),
                        n == task.facts@.len(),
                                fstates.wf(),
                        forward_links(fparent@, fpaths),
                        forward_reached(task, &fstates, fpaths),
                        fstates.entries().len() > 0,
                        fstates.entries()[0]@ == task.init@,
                        fhead + layer - _step == fmark,
                        fmark <= fstates.entries().len(),
                        forall|i: int|
                            0 <= i < fhead ==> forall|k: int|
                                0 <= k < task.operators@.len() && applicable_in((#[trigger] fstates.entries()[i])@, #[trigger] task.operators@[k])
                                    ==> stored(&fstates, successor(fstates.entries()[i]@, task.operators@[k])),
                        forall|i: int| 0 <= i < fmark ==> !satisfies_goal((#[trigger] fstates.entries()[i])@, task.goal_pos@, task.goal_neg@),
                {
                    let i = fhead;
                    fhead = fhead + 1;
                    stats.nodes_expanded = stats.nodes_expanded.saturating_add(1);
                    if let Some(max_nodes) = limits.node_budget {
                        if stats.nodes_expanded >= max_nodes {
                            stats.elapsed = elapsed_since(&start);
                            return Ok(SearchOutcome::LimitReached(stats));
                        }
                    }
                    if let Some(timeout) = &limits.time_budget {
                        let spent = elapsed_since(&start);
                        if duration_at_least(&spent, timeout) {
                            stats.elapsed = elapsed_since(&start);
                            return Ok(SearchOutcome::LimitReached(stats));
                        }
                    }
                    let state = fstates.get(i).clone();
                    proof {
                        assert(run_ops(task, task.init@, fpaths[i as int]) == Some(fstates.entries()[i as int]@));
                    }
                    let nops = task.operators.len();
                    for k in 0..nops
                        invariant
                            nops == task.operators@.len(),
                            searching(task),
                            n == task.facts@.len(),
                            fstates.wf(),
                            forward_links(fparent@, fpaths),
                            forward_reached(task, &fstates, fpaths),
                            fstates.entries().len() > 0,
                            fstates.entries()[0]@ == task.init@,
                            i < fmark <= fstates.entries().len(),
                            fhead == i + 1,
                            state@ == fstates.entries()[i as int]@,
                            state@.len() == n,
                            forall|ii: int|
                                0 <= ii < i ==> forall|kk: int|
                                    0 <= kk < task.operators@.len() && applicable_in((#[trigger] fstates.entries()[ii])@, #[trigger] task.operators@[kk])
                                        ==> stored(&fstates, successor(fstates.entries()[ii]@, task.operators@[kk])),
                            forall|kk: int|
                                0 <= kk < k && applicable_in(state@, #[trigger] task.operators@[kk])
                                    ==> stored(&fstates, successor(state@, task.operators@[kk])),
                            forall|ii: int| 0 <= ii < fmark ==> !satisfies_goal((#[trigger] fstates.entries()[ii])@, task.goal_pos@, task.goal_neg@),
                    {
                        let op = &task.operators[k];
                        if state.applicable(op) {
                            proof {
                                assert(operator_fits(task.operators@[k as int], n as nat));
                                lemma_effects_fit(state@, *op, n as nat);
                            }
                            let next = state.apply(op);
                            if fstates.find(&next).is_none() {
                                let ghost before = fstates.entries();
                                let ghost np = fpaths[i as int].push(op.id);
                                fstates.insert(next);
                                fparent.push(Some((i, op.id)));
                                proof {
                                    lemma_run_push(task, task.init@, fpaths[i as int], op.id);
                                    fpaths = fpaths.push(np);
                                    assert forall|ii: int| 0 <= ii < before.len() implies fstates.entries()[ii] == before[ii] by {}
                                    assert(fstates.entries()[before.len() as int]@ == successor(state@, task.operators@[k as int]));
                                    assert forall|ii: int| 0 <= ii < fstates.entries().len() implies {
                                        &&& run_ops(task, task.init@, #[trigger] fpaths[ii]) == Some(fstates.entries()[ii]@)
                                        &&& ids_valid(task, fpaths[ii])
                                        &&& fstates.entries()[ii]@.len() == task.facts@.len()
                                    } by {
                                        if ii < before.len() {
                                            assert(fpaths[ii] == fpaths.drop_last()[ii]);
                                        }
                                    }
                                    assert forall|ii: int| 0 <= ii < fparent@.len() implies match #[trigger] fparent@[ii] {
                                        None => fpaths[ii] == Seq::<OpId>::empty(),
                                        Some((p, o)) => p < ii && fpaths[ii] == fpaths[p as int].push(o),
                                    } by {
                                        if ii < before.len() {
                                            assert(fparent@[ii] == fparent@.drop_last()[ii]);
                                        }
                                    }
                                    assert(stored(&fstates, successor(state@, task.operators@[k as int])));
                                }
                            }
                        }
                    }
                }
                let fend = fstates.len();
                while fmark < fend
                    invariant
                        fend == fstates.entries().len(),
                        fmark <= fend,
                        fstates.wf(),
                        bgoals.wf(),
                        forward_links(fparent@, fpaths),
                        forward_reached(task, &fstates, fpaths),
                        backward_links(bparent@, bpaths),
                        backward_sound(task, &bgoals, bpaths),
                        searching(task),
                        n == task.facts@.len(),
                        bgoals.entries().len() > 0,
                        bgoals.entries()[0].pos@ == task.goal_pos@,
                        bgoals.entries()[0].neg@ == task.goal_neg@,
                        forall|ii: int| 0 <= ii < fmark ==> !satisfies_goal((#[trigger] fstates.entries()[ii])@, task.goal_pos@, task.goal_neg@),
                    decreases fend - fmark,
                {
                    let idx = fmark;
                    fmark = fmark + 1;
                    match find_met_subgoal(fstates.get(idx), &bgoals) {
                        Some(j) => {
                            let plan = meet_plan(
                                task,
                                &fparent,
                                idx,
                                Ghost(fpaths),
                                Ghost(fstates.entries()[idx as int]@),
                                &bparent,
                                j,
                                Ghost(bpaths),
                                Ghost(bgoals.entries()[j as int].pos@),
                                Ghost(bgoals.entries()[j as int].neg@),
                            );
                            stats.plan_cost = plan.cost;
                            stats.plan_length = plan.len();
                            stats.elapsed = elapsed_since(&start);
                            return Ok(SearchOutcome::Plan(plan, stats));
                        },
                        None => {
                            assert(!satisfies_goal(fstates.entries()[idx as int]@, bgoals.entries()[0].pos@, bgoals.entries()[0].neg@));
                        },
                    }
                }
            }

            if !backward_empty {
                let layer = bmark - bhead;
                for _step in 0..layer
                    invariant
                        searching(task),
                        n == task.facts@.len(),
                                bgoals.wf(),
                        backward_links(bparent@, bpaths),
                        backward_sound(task, &bgoals, bpaths),
                        bgoals.entries().len() > 0,
                        bgoals.entries()[0].pos@ == task.goal_pos@,
                        bgoals.entries()[0].neg@ == task.goal_neg@,
                        bhead + layer - _step == bmark,
                        bmark <= bgoals.entries().len(),
                        forall|jj: int| 1 <= jj < bgoals.entries().len() ==> (#[trigger] bgoals.entries()[jj]).pos@.len() == n && bgoals.entries()[jj].neg@.len() == n,
                {
                    let j = bhead;
                    bhead = bhead + 1;
                    stats.nodes_expanded = stats.nodes_expanded.saturating_add(1);
                    if let Some(max_nodes) = limits.node_budget {
                        if stats.nodes_expanded >= max_nodes {
                            stats.elapsed = elapsed_since(&start);
                            return Ok(SearchOutcome::LimitReached(stats));
                        }
                    }
                    if let Some(timeout) = &limits.time_budget {
                        let spent = elapsed_since(&start);
                        if duration_at_least(&spent, timeout) {
                            stats.elapsed = elapsed_since(&start);
                            return Ok(SearchOutcome::LimitReached(stats));
                        }
                    }
                    let sg = bgoals.get(j).clone();
                    let nops = task.operators.len();
                    for k in 0..nops
                        invariant
                            nops == task.operators@.len(),
                            searching(task),
                            n == task.facts@.len(),
                                        bgoals.wf(),
                            backward_links(bparent@, bpaths),
                            backward_sound(task, &bgoals, bpaths),
                            bgoals.entries().len() > 0,
                            bgoals.entries()[0].pos@ == task.goal_pos@,
                            bgoals.entries()[0].neg@ == task.goal_neg@,
                            j < bmark <= bgoals.entries().len(),
                            sg.pos@ == bgoals.entries()[j as int].pos@,
                            sg.neg@ == bgoals.entries()[j as int].neg@,
                            forall|jj: int| 1 <= jj < bgoals.entries().len() ==> (#[trigger] bgoals.entries()[jj]).pos@.len() == n && bgoals.entries()[jj].neg@.len() == n,
                    {
                        let op = &task.operators[k];
                        if is_relevant(op, &sg.pos, &sg.neg) && is_consistent(op, &sg.pos, &sg.neg) {
                            let new_sg = regress_subgoal(op, &sg.pos, &sg.neg, n);
                            if bgoals.find(&new_sg).is_none() {
                                let ghost before = bgoals.entries();
                                let ghost np = seq![op.id] + bpaths[j as int];
                                proof {
                                    assert(task.operators@[k as int].conditional@.len() == 0);
                                    lemma_regress(task, k as int, sg.pos@, sg.neg@, bpaths[j as int]);
                                    assert(operator_fits(task.operators@[k as int], n as nat));
                                    assert(fits(new_sg.pos@, n as nat));
                                    assert(fits(new_sg.neg@, n as nat));
                                }
                                bgoals.insert(new_sg);
                                bparent.push(Some((j, op.id)));
                                proof {
                                    bpaths = bpaths.push(np);
                                    assert forall|jj: int| 0 <= jj < before.len() implies bgoals.entries()[jj] == before[jj] by {}
                                    assert forall|jj: int| 1 <= jj < bgoals.entries().len() implies (#[trigger] bgoals.entries()[jj]).pos@.len() == n
                                        && bgoals.entries()[jj].neg@.len() == n by {
                                        if jj < before.len() {
                                            assert(bgoals.entries()[jj] == before[jj]);
                                        }
                                    }
                                    assert forall|jj: int| 0 <= jj < bgoals.entries().len() implies {
                                        &&& leads_to_goal(task, bgoals.entries()[jj].pos@, bgoals.entries()[jj].neg@, #[trigger] bpaths[jj])
                                        &&& ids_valid(task, bpaths[jj])
                                        &&& fits(bgoals.entries()[jj].pos@, task.facts@.len())
                                        &&& fits(bgoals.entries()[jj].neg@, task.facts@.len())
                                    } by {
                                        if jj < before.len() {
                                            assert(bpaths[jj] == bpaths.drop_last()[jj]);
                                        } else {
                                            assert forall|q: int| 0 <= q < np.len() implies (#[trigger] np[q]).0 < task.operators@.len() by {
                                                if q > 0 {
                                                    assert(np[q] == bpaths[j as int][q - 1]);
                                                }
                                            }
                                        }
                                    }
                                    assert forall|jj: int| 0 <= jj < bparent@.len() implies match #[trigger] bparent@[jj] {
                                        None => bpaths[jj] == Seq::<OpId>::empty(),
                                        Some((p, o)) => p < jj && bpaths[jj] == seq![o] + bpaths[p as int],
                                    } by {
                                        if jj < before.len() {
                                            assert(bparent@[jj] == bparent@.drop_last()[jj]);
                                        }
                                    }
                                }
                            }
                        }
                    }
                }
                let bend = bgoals.len();
                while bmark < bend
                    invariant
                        bend == bgoals.entries().len(),
                        bmark <= bend,
                        forall|jj: int| 1 <= jj < bgoals.entries().len() ==> (#[trigger] bgoals.entries()[jj]).pos@.len() == n && bgoals.entries()[jj].neg@.len() == n,
                        fstates.wf(),
                        bgoals.wf(),
                        forward_links(fparent@, fpaths),
                        forward_reached(task, &fstates, fpaths),
                        backward_links(bparent@, bpaths),
                        backward_sound(task, &bgoals, bpaths),
                        searching(task),
                        n == task.facts@.len(),
                    decreases bend - bmark,
                {
                    let idx = bmark;
                    bmark = bmark + 1;
                    match find_meeting_state(bgoals.get(idx), &fstates) {
                        Some(i) => {
                            let plan = meet_plan(
                                task,
                                &fparent,
                                i,
                                Ghost(fpaths),
                                Ghost(fstates.entries()[i as int]@),
                                &bparent,
                                idx,
                                Ghost(bpaths),
                                Ghost(bgoals.entries()[idx as int].pos@),
                                Ghost(bgoals.entries()[idx as int].neg@),
                            );
                            stats.plan_cost = plan.cost;
                            stats.plan_length = plan.len();
                            stats.elapsed = elapsed_since(&start);
                            return Ok(SearchOutcome::Plan(plan, stats));
                        },
                        None => {},
                    }
                }
            }
            proof {
                assert forall|i: int| 0 <= i < fstates.entries().len() implies (#[trigger] fstates.entries()[i])@.len() == n by {
                    assert(run_ops(task, task.init@, fpaths[i]) == Some(fstates.entries()[i]@));
                }
                lemma_table_bound(&fstates, n as nat);
                lemma_subgoal_table_bound(&bgoals, n as nat);
                assert(fhead >= fh0 && bhead >= bh0 && (fhead > fh0 || bhead > bh0));
            }
        }
    }
}

impl Planner for BibfsUc {
    fn name(&self) -> (r: &'static str)
        ensures
            r@ == "bibfs-uc"@,
    {
        "bibfs-uc"
    }

    fn describe(&self) -> (r: &'static str)
        ensures
            r@ == "Bidirectional BFS (uniform-cost, not cost-aware)"@,
    {
        "Bidirectional BFS (uniform-cost, not cost-aware)"
    }

    fn capabilities(&self) -> (c: PlannerCapabilities)
        ensures
            c.bits == 1u32 | 2u32,
    {
        PlannerCapabilities::classical().union(PlannerCapabilities::negative_preconds())
    }

    fn solve(&mut self, task: &Task, limits: &SearchLimits) -> (r: Result<SearchOutcome, MiniplanError>)
        ensures
            r is Err <==> !no_conditional_effects(task),
            r matches Err(e) ==> e is UnsupportedConditionalEffects,
            no_conditional_effects(task) && satisfies_goal(task.init@, task.goal_pos@, task.goal_neg@)
                ==> (r matches Ok(SearchOutcome::Plan(p, _)) && p.steps@.len() == 0),
            r matches Ok(SearchOutcome::Plan(plan, stats)) ==> plan_outcome_sound(task, &plan, &stats),
            r matches Ok(SearchOutcome::Unsolvable(_)) ==> !solvable(task),
            r matches Ok(SearchOutcome::LimitReached(stats)) ==> (limits.node_budget matches Some(m) && stats.nodes_expanded >= m)
                || limits.time_budget is Some,
    {
        self.run(task, limits)
    }
}

} // verus!
